//! A uniform grid of square cells over the tank, for neighbour search.
//!
//! Cell size equals the smoothing radius, so every neighbour of a point lies
//! in the 3x3 block of cells around it. Entries are counting-sorted by cell,
//! so a row of three neighbouring cells is one contiguous run of slots.
//!
//! Positions are floating point and stay with the caller: it hands each entry
//! in with the raw integer cell coordinates of its position (the floor of
//! `position / cell_size + width / 2`, saturated to `i32`), and the grid does
//! the clamping, indexing and sorting.
use vstd::prelude::*;
use vstd::arithmetic::div_mod::lemma_fundamental_div_mod_converse;

verus! {

/// What the grid stores per entry: the caller's data, and its density, which
/// the density pass writes back between two neighbour sweeps.
#[derive(Clone, Copy, Debug)]
pub struct GridEntry<E, D> {
    pub body: E,
    pub density: D,
}

/// Number of entries of `s` equal to `c`.
pub open spec fn count_eq(s: Seq<usize>, c: int) -> nat
    decreases s.len(),
{
    if s.len() == 0 {
        0
    } else {
        count_eq(s.drop_last(), c) + if s.last() as int == c { 1nat } else { 0nat }
    }
}

/// Number of entries of `s` below `c`.
pub open spec fn count_below(s: Seq<usize>, c: int) -> nat
    decreases s.len(),
{
    if s.len() == 0 {
        0
    } else {
        count_below(s.drop_last(), c) + if (s.last() as int) < c { 1nat } else { 0nat }
    }
}

/// The slot that a stable counting sort by cell gives the `k`-th entry:
/// after every entry of a lower cell, and after the earlier entries of its own.
pub open spec fn slot_of(keys: Seq<usize>, k: int) -> int {
    (count_below(keys, keys[k] as int) + count_eq(keys.take(k), keys[k] as int)) as int
}

/// `v` clamped to `0..=w - 1`.
pub open spec fn clamp_cell(v: int, w: int) -> int {
    if v < 0 {
        0
    } else if v > w - 1 {
        w - 1
    } else {
        v
    }
}

/// Index of the cell that raw coordinates `(x, y)` land in, rows of `w` cells.
pub open spec fn key_of(raw: (i32, i32), w: int) -> int {
    clamp_cell(raw.1 as int, w) * w + clamp_cell(raw.0 as int, w)
}

/// The cell index of every entry handed to `rebuild`, in the order given.
pub open spec fn keys_of<T>(input: Seq<((i32, i32), T)>, w: int) -> Seq<usize> {
    Seq::new(input.len(), |k: int| key_of(input[k].0, w) as usize)
}

/// Whether cell `key` lies in the 3x3 block around cell `(x, y)`.
pub open spec fn near(key: int, x: int, y: int, w: int) -> bool {
    let col = key % w;
    let row = key / w;
    &&& x - 1 <= col <= x + 1
    &&& y - 1 <= row <= y + 1
}

/// Whether some entry was dealt slot `s`.
pub open spec fn slot_taken(keys: Seq<usize>, s: int) -> bool {
    exists|k: int| 0 <= k < keys.len() && #[trigger] slot_of(keys, k) == s
}

/// Whether slot `s` lies in one of the half-open `ranges`.
pub open spec fn in_ranges(ranges: Seq<(usize, usize)>, s: int) -> bool {
    exists|i: int| 0 <= i < ranges.len() && ranges[i].0 <= s < #[trigger] ranges[i].1
}

/// First cell of the 3x3 block around `v` along one axis, clipped at the edge.
pub open spec fn block_lo(v: int, w: int) -> int {
    let c = clamp_cell(v, w);
    if c > 0 { c - 1 } else { 0 }
}

/// Last cell of the 3x3 block around `v` along one axis, clipped at the edge.
pub open spec fn block_hi(v: int, w: int) -> int {
    let c = clamp_cell(v, w);
    if c < w - 1 { c + 1 } else { w - 1 }
}

/// A grid `w` cells wide is only built while a cell index fits an `i32`.
pub open spec fn width_fits(width: i32) -> bool {
    width <= 1 || width * width <= 0x8000_0000
}

/// Law: clamping into a grid `w` cells wide leaves a coordinate inside the
/// grid alone, sends one below it to the first cell and one past it to the
/// last, and always lands inside the grid.
pub proof fn lemma_clamp_cell(v: int, w: int)
    requires
        1 <= w,
    ensures
        0 <= clamp_cell(v, w) < w,
        0 <= v < w ==> clamp_cell(v, w) == v,
        v < 0 ==> clamp_cell(v, w) == 0,
        v >= w ==> clamp_cell(v, w) == w - 1,
{
}

/// Law: raw coordinates inside the grid land in their own cell, whose index
/// counts `y` whole rows of `w` cells and then `x` cells.
pub proof fn lemma_key_inside(x: i32, y: i32, w: int)
    requires
        0 <= x < w,
        0 <= y < w,
    ensures
        key_of((x, y), w) == y * w + x,
{
    lemma_clamp_cell(x as int, w);
    lemma_clamp_cell(y as int, w);
}

/// Law: around a cell inside the grid the block runs from the cell before to
/// the cell after, cut only at the edge of the grid.
pub proof fn lemma_block_inside(v: int, w: int)
    requires
        0 <= v < w,
    ensures
        block_lo(v, w) == if v >= 1 { v - 1 } else { 0 },
        block_hi(v, w) == if v + 1 <= w - 1 { v + 1 } else { w - 1 },
{
    lemma_clamp_cell(v, w);
}

/// Law: a cell inside the grid is near another inside the grid exactly when
/// their columns and their rows each differ by at most one.
pub proof fn lemma_near_inside(cx: int, cy: int, x: int, y: int, w: int)
    requires
        0 <= cx < w,
        0 <= cy < w,
    ensures
        near(cy * w + cx, x, y, w) <==> (x - 1 <= cx <= x + 1 && y - 1 <= cy <= y + 1),
{
    lemma_row_col(cy * w + cx, cy, cx, w);
}

// ---------------------------------------------------------------------------
// Counting lemmas

proof fn lemma_count_eq_step(s: Seq<usize>, k: int, c: int)
    requires
        0 <= k < s.len(),
    ensures
        count_eq(s.take(k + 1), c) == count_eq(s.take(k), c) + if s[k] as int == c { 1nat } else { 0nat },
{
    assert(s.take(k + 1).drop_last() =~= s.take(k));
}

proof fn lemma_count_eq_full(s: Seq<usize>, c: int)
    ensures
        count_eq(s.take(s.len() as int), c) == count_eq(s, c),
{
    assert(s.take(s.len() as int) =~= s);
}

proof fn lemma_count_eq_mono(s: Seq<usize>, j: int, k: int, c: int)
    requires
        0 <= j <= k <= s.len(),
    ensures
        count_eq(s.take(j), c) <= count_eq(s.take(k), c),
    decreases k - j,
{
    if j < k {
        lemma_count_eq_step(s, k - 1, c);
        lemma_count_eq_mono(s, j, k - 1, c);
    }
}

proof fn lemma_count_eq_le_len(s: Seq<usize>, c: int)
    ensures
        count_eq(s, c) <= s.len(),
    decreases s.len(),
{
    if s.len() > 0 {
        lemma_count_eq_le_len(s.drop_last(), c);
    }
}

proof fn lemma_count_below_le_len(s: Seq<usize>, c: int)
    ensures
        count_below(s, c) <= s.len(),
    decreases s.len(),
{
    if s.len() > 0 {
        lemma_count_below_le_len(s.drop_last(), c);
    }
}

proof fn lemma_count_below_split(s: Seq<usize>, c: int)
    ensures
        count_below(s, c + 1) == count_below(s, c) + count_eq(s, c),
    decreases s.len(),
{
    if s.len() > 0 {
        lemma_count_below_split(s.drop_last(), c);
    }
}

proof fn lemma_count_below_mono(s: Seq<usize>, a: int, b: int)
    requires
        a <= b,
    ensures
        count_below(s, a) <= count_below(s, b),
    decreases s.len(),
{
    if s.len() > 0 {
        lemma_count_below_mono(s.drop_last(), a, b);
    }
}

proof fn lemma_count_below_zero(s: Seq<usize>)
    ensures
        count_below(s, 0) == 0,
    decreases s.len(),
{
    if s.len() > 0 {
        lemma_count_below_zero(s.drop_last());
    }
}

proof fn lemma_count_below_all(s: Seq<usize>, m: int)
    requires
        forall|k: int| 0 <= k < s.len() ==> (s[k] as int) < m,
    ensures
        count_below(s, m) == s.len(),
    decreases s.len(),
{
    if s.len() > 0 {
        let t = s.drop_last();
        assert forall|k: int| 0 <= k < t.len() implies (t[k] as int) < m by {
            assert(t[k] == s[k]);
        }
        lemma_count_below_all(t, m);
    }
}

/// Law: every entry lands in the run of slots of its own cell, which runs
/// from the number of entries of lower cells up to the number of entries of
/// its cell and the cells below it.
pub proof fn lemma_slot_in_cell(keys: Seq<usize>, k: int)
    requires
        0 <= k < keys.len(),
    ensures
        count_below(keys, keys[k] as int) <= slot_of(keys, k),
        slot_of(keys, k) < count_below(keys, keys[k] as int + 1),
{
    let c = keys[k] as int;
    lemma_count_eq_step(keys, k, c);
    lemma_count_eq_mono(keys, k + 1, keys.len() as int, c);
    lemma_count_eq_full(keys, c);
    lemma_count_below_split(keys, c);
}

proof fn lemma_slot_bounds(keys: Seq<usize>, cells: int, k: int)
    requires
        0 <= k < keys.len(),
        forall|j: int| 0 <= j < keys.len() ==> (keys[j] as int) < cells,
    ensures
        0 <= slot_of(keys, k) < keys.len(),
{
    lemma_slot_in_cell(keys, k);
    lemma_count_below_mono(keys, keys[k] as int + 1, cells);
    lemma_count_below_all(keys, cells);
}

proof fn lemma_slots_differ(keys: Seq<usize>, j: int, k: int)
    requires
        0 <= j < k < keys.len(),
    ensures
        slot_of(keys, j) < slot_of(keys, k) <==> keys[j] <= keys[k],
        slot_of(keys, j) != slot_of(keys, k),
{
    lemma_slot_in_cell(keys, j);
    lemma_slot_in_cell(keys, k);
    let a = keys[j] as int;
    let b = keys[k] as int;
    if a == b {
        lemma_count_eq_step(keys, j, a);
        lemma_count_eq_mono(keys, j + 1, k, a);
    } else if a < b {
        lemma_count_below_mono(keys, a + 1, b);
    } else {
        lemma_count_below_mono(keys, b + 1, a);
    }
}

/// Some entry of cell `c` sits at every slot of that cell's run.
proof fn lemma_find_in_cell(keys: Seq<usize>, c: int, t: int, upto: int) -> (k: int)
    requires
        0 <= upto <= keys.len(),
        0 <= t < count_eq(keys.take(upto), c),
    ensures
        0 <= k < upto,
        keys[k] as int == c,
        count_eq(keys.take(k), c) == t,
    decreases upto,
{
    lemma_count_eq_step(keys, upto - 1, c);
    if keys[upto - 1] as int == c && count_eq(keys.take(upto - 1), c) == t {
        upto - 1
    } else {
        lemma_find_in_cell(keys, c, t, upto - 1)
    }
}

/// Every slot below the count belongs to the run of some cell.
proof fn lemma_find_cell(keys: Seq<usize>, lo: int, hi: int, s: int) -> (c: int)
    requires
        lo < hi,
        count_below(keys, lo) <= s < count_below(keys, hi),
    ensures
        lo <= c < hi,
        count_below(keys, c) <= s < count_below(keys, c + 1),
    decreases hi - lo,
{
    if s < count_below(keys, lo + 1) {
        lo
    } else {
        lemma_find_cell(keys, lo + 1, hi, s)
    }
}

/// Law: the slots handed out by `rebuild` are a permutation of `0..n`. Each
/// lies below `n`, no two entries share one, and every slot holds an entry.
pub proof fn lemma_slots_permute(keys: Seq<usize>, cells: int)
    requires
        forall|j: int| 0 <= j < keys.len() ==> (keys[j] as int) < cells,
    ensures
        forall|k: int| 0 <= k < keys.len() ==> 0 <= #[trigger] slot_of(keys, k) < keys.len(),
        forall|j: int, k: int|
            0 <= j < keys.len() && 0 <= k < keys.len() && j != k ==> slot_of(keys, j) != slot_of(keys, k),
        forall|s: int| 0 <= s < keys.len() ==> #[trigger] slot_taken(keys, s),
{
    assert forall|k: int| 0 <= k < keys.len() implies 0 <= #[trigger] slot_of(keys, k) < keys.len() by {
        lemma_slot_bounds(keys, cells, k);
    }
    assert forall|j: int, k: int|
        0 <= j < keys.len() && 0 <= k < keys.len() && j != k implies slot_of(keys, j) != slot_of(keys, k) by {
        if j < k {
            lemma_slots_differ(keys, j, k);
        } else {
            lemma_slots_differ(keys, k, j);
        }
    }
    assert forall|s: int| 0 <= s < keys.len() implies #[trigger] slot_taken(keys, s) by {
        lemma_count_below_zero(keys);
        lemma_count_below_all(keys, cells);
        let c = lemma_find_cell(keys, 0, cells, s);
        lemma_count_below_split(keys, c);
        lemma_count_eq_full(keys, c);
        let k = lemma_find_in_cell(keys, c, s - count_below(keys, c), keys.len() as int);
        assert(slot_of(keys, k) == s);
    }
}

/// Law: the sort is by cell and stable. An entry of a lower cell gets a lower
/// slot, and of two entries in one cell the earlier gets the lower slot.
pub proof fn lemma_sorted_by_cell(keys: Seq<usize>, j: int, k: int)
    requires
        0 <= j < keys.len(),
        0 <= k < keys.len(),
    ensures
        keys[j] < keys[k] ==> slot_of(keys, j) < slot_of(keys, k),
        keys[j] == keys[k] && j < k ==> slot_of(keys, j) < slot_of(keys, k),
{
    if j < k {
        lemma_slots_differ(keys, j, k);
    } else if k < j {
        lemma_slots_differ(keys, k, j);
    }
}

// ---------------------------------------------------------------------------
// Arithmetic of cell indices

proof fn lemma_row_col(key: int, row: int, col: int, w: int)
    requires
        0 < w,
        0 <= col < w,
        key == row * w + col,
    ensures
        key / w == row,
        key % w == col,
{
    lemma_fundamental_div_mod_converse(key, w, row, col);
}

proof fn lemma_key_bounds(row: int, col: int, w: int)
    requires
        0 <= row < w,
        0 <= col < w,
    ensures
        0 <= row * w + col < w * w,
{
    assert(0 <= row * w + col < w * w) by (nonlinear_arith)
        requires
            0 <= row < w,
            0 <= col < w,
    ;
}

proof fn lemma_split_key(key: int, w: int)
    requires
        0 < w,
        0 <= key < w * w,
    ensures
        0 <= key / w < w,
        0 <= key % w < w,
        key == (key / w) * w + key % w,
{
    vstd::arithmetic::div_mod::lemma_fundamental_div_mod(key, w);
    vstd::arithmetic::div_mod::lemma_mod_bound(key, w);
    let q = key / w;
    let r = key % w;
    assert(0 <= q < w) by (nonlinear_arith)
        requires
            key == w * q + r,
            0 <= r < w,
            0 <= key < w * w,
            0 < w,
    ;
    assert(key == q * w + r) by (nonlinear_arith)
        requires
            key == w * q + r,
    ;
}

/// Index of the cell at raw coordinates `(x, y)`, clamped into a grid `w` wide.
fn key_at(x: i32, y: i32, w: i32) -> (key: usize)
    requires
        1 <= w,
        w * w <= 0x8000_0000,
    ensures
        key as int == key_of((x, y), w as int),
        (key as int) < w * w,
        0 <= x < w && 0 <= y < w ==> key as int == y * w + x,
{
    let cx = clamp(x, w);
    let cy = clamp(y, w);
    proof {
        lemma_key_bounds(cy as int, cx as int, w as int);
    }
    (cy as usize) * (w as usize) + (cx as usize)
}

fn clamp(v: i32, w: i32) -> (c: i32)
    requires
        1 <= w,
    ensures
        c as int == clamp_cell(v as int, w as int),
        0 <= c < w,
        0 <= v < w ==> c == v,
        v < 0 ==> c == 0,
        v >= w ==> c == w - 1,
{
    if v < 0 {
        0
    } else if v > w - 1 {
        w - 1
    } else {
        v
    }
}

/// Law: a query made from the raw coordinates that an entry came with finds
/// that entry, however far outside the grid they lie.
pub proof fn lemma_finds_itself(raw: (i32, i32), w: int)
    requires
        1 <= w,
    ensures
        near(key_of(raw, w), clamp_cell(raw.0 as int, w), clamp_cell(raw.1 as int, w), w),
{
    lemma_row_col(key_of(raw, w), clamp_cell(raw.1 as int, w), clamp_cell(raw.0 as int, w), w);
}

// ---------------------------------------------------------------------------
// The grid

/// Entries counting-sorted by cell. `starts[i]..starts[i + 1]` is the run of
/// slots of cell `i`, and `order[k]` is the slot that the `k`-th entry handed
/// to `rebuild` landed in.
pub struct SpatialGrid<E, D> {
    width: i32,
    entries: Vec<GridEntry<E, D>>,
    starts: Vec<u32>,
    order: Vec<u32>,
    keys: Ghost<Seq<usize>>,
}

impl<E: Copy, D: Copy> SpatialGrid<E, D> {
    /// Cells per row; 0 before the first `rebuild`.
    pub closed spec fn cell_width(self) -> int {
        self.width as int
    }

    /// Cell index of every entry, in the order `rebuild` was given them.
    pub closed spec fn cell_keys(self) -> Seq<usize> {
        self.keys@
    }

    /// Entries in slot order.
    pub closed spec fn stored(self) -> Seq<GridEntry<E, D>> {
        self.entries@
    }

    /// Slot of every entry, in the order `rebuild` was given them.
    pub closed spec fn slot_seq(self) -> Seq<u32> {
        self.order@
    }

    /// The grid's invariant: empty before the first `rebuild`, else sorted.
    pub closed spec fn wf(self) -> bool {
        let w = self.width as int;
        let keys = self.keys@;
        let cells = w * w;
        ||| {
            &&& w == 0
            &&& keys.len() == 0
            &&& self.entries@.len() == 0
            &&& self.order@.len() == 0
            &&& self.starts@.len() == 0
        }
        ||| {
            &&& 1 <= w
            &&& cells <= 0x8000_0000
            &&& keys.len() <= u32::MAX
            &&& self.entries@.len() == keys.len()
            &&& self.order@.len() == keys.len()
            &&& self.starts@.len() == cells + 1
            &&& forall|k: int| 0 <= k < keys.len() ==> (#[trigger] keys[k] as int) < cells
            &&& forall|c: int| 0 <= c <= cells ==> #[trigger] self.starts@[c] as int == count_below(keys, c)
            &&& forall|k: int| 0 <= k < keys.len() ==> #[trigger] self.order@[k] as int == slot_of(keys, k)
        }
    }

    /// An empty grid; it answers no query until the first `rebuild`.
    pub fn new() -> (grid: Self)
        ensures
            grid.wf(),
            grid.cell_width() == 0,
            grid.cell_keys().len() == 0,
            grid.stored().len() == 0,
            grid.slot_seq().len() == 0,
    {
        SpatialGrid {
            width: 0,
            entries: Vec::new(),
            starts: Vec::new(),
            order: Vec::new(),
            keys: Ghost(Seq::empty()),
        }
    }

    /// Law: a well-formed grid is empty or has at least one cell per row,
    /// and every entry's cell index lies inside the grid.
    pub proof fn lemma_wf(self)
        requires
            self.wf(),
        ensures
            self.cell_width() == 0 ==> self.cell_keys().len() == 0,
            self.cell_width() >= 0,
            self.cell_width() * self.cell_width() <= 0x8000_0000,
            self.stored().len() == self.cell_keys().len(),
            self.slot_seq().len() == self.cell_keys().len(),
            forall|k: int| 0 <= k < self.cell_keys().len()
                ==> (#[trigger] self.cell_keys()[k] as int) < self.cell_width() * self.cell_width(),
            forall|k: int| 0 <= k < self.cell_keys().len()
                ==> #[trigger] self.slot_seq()[k] as int == slot_of(self.cell_keys(), k),
    {
        let w = self.width as int;
        if w == 0 {
            assert(w * w == 0) by (nonlinear_arith)
                requires
                    w == 0,
            ;
        }
    }

    /// Cells per row.
    pub fn width(&self) -> (w: i32)
        ensures
            w as int == self.cell_width(),
    {
        self.width
    }

    /// Counting-sorts `input` by cell. Each entry comes with the raw cell
    /// coordinates of its position; they are clamped into the grid, so a far
    /// particle lands in an edge cell. A `width` below 1 counts as 1.
    /// Everything from the previous build is dropped.
    #[verifier::spinoff_prover]
    pub fn rebuild(&mut self, width: i32, input: Vec<((i32, i32), GridEntry<E, D>)>)
        requires
            width_fits(width),
            input.len() <= u32::MAX,
        ensures
            final(self).wf(),
            final(self).cell_width() == if width < 1 { 1 } else { width as int },
            final(self).cell_keys() == keys_of(input@, final(self).cell_width()),
            final(self).stored().len() == input.len(),
            final(self).slot_seq().len() == input.len(),
            forall|k: int| 0 <= k < input.len()
                ==> #[trigger] final(self).slot_seq()[k] as int == slot_of(final(self).cell_keys(), k),
            forall|k: int| 0 <= k < input.len()
                ==> final(self).stored()[slot_of(final(self).cell_keys(), k)] == #[trigger] input@[k].1,
            forall|k: int| 0 <= k < input.len() && 0 <= (#[trigger] input@[k]).0.0 < final(self).cell_width()
                && 0 <= input@[k].0.1 < final(self).cell_width()
                ==> final(self).cell_keys()[k] as int == input@[k].0.1 * final(self).cell_width() + input@[k].0.0,
    {
        let w: i32 = if width < 1 { 1 } else { width };
        let cells: usize = (w as usize) * (w as usize);
        let n: usize = input.len();

        // The cell of every entry.
        let mut keys: Vec<usize> = Vec::new();
        for k in 0..n
            invariant
                n == input.len(),
                1 <= w,
                w * w <= 0x8000_0000,
                cells == w * w,
                keys@.len() == k,
                forall|j: int| 0 <= j < k ==> #[trigger] keys@[j] as int == key_of(input@[j].0, w as int),
                forall|j: int| 0 <= j < k ==> (#[trigger] keys@[j] as int) < cells,
        {
            let (x, y) = input[k].0;
            let key = key_at(x, y, w);
            keys.push(key);
        }
        let ghost ks = keys@;
        assert(ks =~= keys_of(input@, w as int));

        // How many entries each cell holds, shifted up by one.
        let mut starts: Vec<u32> = Vec::new();
        for i in 0..cells + 1
            invariant
                starts@.len() == i,
                forall|c: int| 0 <= c < i ==> #[trigger] starts@[c] == 0,
        {
            starts.push(0);
        }
        proof {
            assert forall|c: int| 1 <= c <= cells implies #[trigger] starts@[c] as int == count_eq(ks.take(0), c - 1) by {
                assert(ks.take(0).len() == 0);
            }
        }
        for k in 0..n
            invariant
                n == ks.len(),
                n <= u32::MAX,
                keys@ == ks,
                starts@.len() == cells + 1,
                starts@[0] == 0,
                forall|j: int| 0 <= j < n ==> (#[trigger] ks[j] as int) < cells,
                forall|c: int| 1 <= c <= cells ==> #[trigger] starts@[c] as int == count_eq(ks.take(k as int), c - 1),
        {
            let c = keys[k];
            proof {
                lemma_count_eq_step(ks, k as int, c as int);
                lemma_count_eq_le_len(ks.take(k as int), c as int);
                assert forall|d: int| 1 <= d <= cells implies #[trigger] count_eq(ks.take(k + 1), d - 1)
                    == count_eq(ks.take(k as int), d - 1) + if d - 1 == c as int { 1nat } else { 0nat } by {
                    lemma_count_eq_step(ks, k as int, d - 1);
                }
            }
            let bumped = starts[c + 1] + 1;
            starts.set(c + 1, bumped);
        }
        // Running sums turn the counts into the first slot of every cell.
        proof {
            lemma_count_below_zero(ks);
            assert forall|c: int| 1 <= c <= cells implies #[trigger] starts@[c] as int == count_eq(ks, c - 1) by {
                lemma_count_eq_full(ks, c - 1);
            }
        }
        for i in 0..cells
            invariant
                n == ks.len(),
                n <= u32::MAX,
                starts@.len() == cells + 1,
                forall|c: int| 0 <= c <= i ==> #[trigger] starts@[c] as int == count_below(ks, c),
                forall|c: int| i < c <= cells ==> #[trigger] starts@[c] as int == count_eq(ks, c - 1),
        {
            proof {
                lemma_count_below_split(ks, i as int);
                lemma_count_below_le_len(ks, i + 1);
            }
            let sum = starts[i + 1] + starts[i];
            starts.set(i + 1, sum);
        }
        proof {
            lemma_count_below_all(ks, cells as int);
        }

        // Deal the entries out, each to the next free slot of its cell.
        let mut cursor: Vec<u32> = Vec::new();
        for c in 0..cells
            invariant
                starts@.len() == cells + 1,
                cursor@.len() == c,
                forall|d: int| 0 <= d < c ==> #[trigger] cursor@[d] == starts@[d],
        {
            cursor.push(starts[c]);
        }
        proof {
            assert forall|c: int| 0 <= c < cells implies #[trigger] cursor@[c] as int == count_below(ks, c)
                + count_eq(ks.take(0), c) by {
                assert(ks.take(0).len() == 0);
            }
        }
        let mut order: Vec<u32> = Vec::new();
        let mut by_slot: Vec<usize> = Vec::new();
        for s in 0..n
            invariant
                by_slot@.len() == s,
                forall|t: int| 0 <= t < s ==> #[trigger] by_slot@[t] == 0,
        {
            by_slot.push(0);
        }
        for k in 0..n
            invariant
                n == ks.len(),
                n <= u32::MAX,
                keys@ == ks,
                cursor@.len() == cells,
                by_slot@.len() == n,
                order@.len() == k,
                count_below(ks, cells as int) == n,
                forall|j: int| 0 <= j < n ==> (#[trigger] ks[j] as int) < cells,
                forall|c: int| 0 <= c < cells ==> #[trigger] cursor@[c] as int == count_below(ks, c)
                    + count_eq(ks.take(k as int), c),
                forall|j: int| 0 <= j < k ==> #[trigger] order@[j] as int == slot_of(ks, j),
                forall|j: int| 0 <= j < k ==> by_slot@[#[trigger] slot_of(ks, j)] == j,
                forall|t: int| 0 <= t < n ==> (#[trigger] by_slot@[t] as int) < n,
        {
            let c = keys[k];
            let slot = cursor[c];
            proof {
                assert(slot as int == slot_of(ks, k as int));
                lemma_slot_bounds(ks, cells as int, k as int);
                assert forall|j: int| 0 <= j < k implies slot_of(ks, j) != slot_of(ks, k as int) by {
                    lemma_slots_differ(ks, j, k as int);
                }
                assert forall|d: int| 0 <= d < cells implies #[trigger] count_eq(ks.take(k + 1), d)
                    == count_eq(ks.take(k as int), d) + if d == c as int { 1nat } else { 0nat } by {
                    lemma_count_eq_step(ks, k as int, d);
                }
            }
            by_slot.set(slot as usize, k);
            proof {
                assert forall|j: int| 0 <= j < k + 1 implies by_slot@[#[trigger] slot_of(ks, j)] == j by {
                    if j < k {
                        lemma_slot_bounds(ks, cells as int, j);
                        assert(slot_of(ks, j) != slot_of(ks, k as int));
                    }
                }
            }
            cursor.set(c, slot + 1);
            order.push(slot);
        }

        // Lay the entries out in slot order.
        let mut entries: Vec<GridEntry<E, D>> = Vec::new();
        for s in 0..n
            invariant
                n == input.len(),
                by_slot@.len() == n,
                forall|t: int| 0 <= t < n ==> (#[trigger] by_slot@[t] as int) < n,
                entries@.len() == s,
                forall|t: int| 0 <= t < s ==> #[trigger] entries@[t] == input@[by_slot@[t] as int].1,
        {
            let from = by_slot[s];
            entries.push(input[from].1);
        }
        proof {
            assert forall|k: int| 0 <= k < n implies entries@[slot_of(ks, k)] == #[trigger] input@[k].1 by {
                lemma_slot_bounds(ks, cells as int, k);
            }
        }

        self.width = w;
        self.entries = entries;
        self.starts = starts;
        self.order = order;
        self.keys = Ghost(ks);
    }

    /// Slot of every entry, in the order `rebuild` was given them.
    pub fn slots(&self) -> (slots: &[u32])
        ensures
            slots@ == self.slot_seq(),
    {
        self.order.as_slice()
    }

    /// Entries in slot order.
    pub fn entries(&self) -> (entries: &[GridEntry<E, D>])
        ensures
            entries@ == self.stored(),
    {
        self.entries.as_slice()
    }

    /// Writes the density of the entry at `slot`; a slot past the end is
    /// ignored. Nothing moves, so the sort still holds.
    pub fn set_density(&mut self, slot: u32, density: D)
        requires
            old(self).wf(),
        ensures
            final(self).wf(),
            final(self).cell_width() == old(self).cell_width(),
            final(self).cell_keys() == old(self).cell_keys(),
            final(self).slot_seq() == old(self).slot_seq(),
            final(self).stored() == if (slot as int) < old(self).stored().len() {
                old(self).stored().update(
                    slot as int,
                    GridEntry { body: old(self).stored()[slot as int].body, density },
                )
            } else {
                old(self).stored()
            },
    {
        if (slot as usize) < self.entries.len() {
            let mut entry = self.entries[slot as usize];
            entry.density = density;
            self.entries.set(slot as usize, entry);
        }
    }

    /// The cell that raw coordinates land in, clamped into the grid.
    pub fn cell_coords(&self, x: i32, y: i32) -> (cell: (i32, i32))
        requires
            self.wf(),
            self.cell_width() >= 1,
        ensures
            cell.0 as int == clamp_cell(x as int, self.cell_width()),
            cell.1 as int == clamp_cell(y as int, self.cell_width()),
            0 <= x < self.cell_width() ==> cell.0 == x,
            0 <= y < self.cell_width() ==> cell.1 == y,
            0 <= cell.0 < self.cell_width(),
            0 <= cell.1 < self.cell_width(),
    {
        (clamp(x, self.width), clamp(y, self.width))
    }

    /// Index of the cell that raw coordinates land in.
    pub fn cell_index(&self, x: i32, y: i32) -> (key: usize)
        requires
            self.wf(),
            self.cell_width() >= 1,
        ensures
            key as int == key_of((x, y), self.cell_width()),
            0 <= x < self.cell_width() && 0 <= y < self.cell_width() ==> key as int == y * self.cell_width() + x,
    {
        key_at(x, y, self.width)
    }

    /// Slot ranges of the 3x3 block of cells around raw coordinates
    /// `(x, y)`: one half-open range per row of the block, rows clipped at the
    /// edge of the grid. An entry sits in one of them exactly when its cell
    /// lies in the block, so the querying entry itself is included.
    #[verifier::spinoff_prover]
    pub fn neighbour_ranges(&self, x: i32, y: i32) -> (ranges: Vec<(usize, usize)>)
        requires
            self.wf(),
            self.cell_width() >= 1,
        ensures
            ranges.len() == block_hi(y as int, self.cell_width()) - block_lo(y as int, self.cell_width()) + 1,
            forall|i: int| 0 <= i < ranges.len() ==> {
                let row = block_lo(y as int, self.cell_width()) + i;
                let w = self.cell_width();
                &&& #[trigger] ranges@[i].0 as int == count_below(self.cell_keys(), row * w + block_lo(x as int, w))
                &&& ranges@[i].1 as int == count_below(self.cell_keys(), row * w + block_hi(x as int, w) + 1)
                &&& ranges@[i].0 <= ranges@[i].1 <= self.stored().len()
            },
            forall|i: int, j: int| 0 <= i < j < ranges.len() ==> #[trigger] ranges@[i].1 <= #[trigger] ranges@[j].0,
            forall|k: int| 0 <= k < self.cell_keys().len() ==> (
                in_ranges(ranges@, #[trigger] slot_of(self.cell_keys(), k))
                <==> near(
                    self.cell_keys()[k] as int,
                    clamp_cell(x as int, self.cell_width()),
                    clamp_cell(y as int, self.cell_width()),
                    self.cell_width(),
                )
            ),
    {
        let w = self.width;
        let ghost wi = w as int;
        let ghost keys = self.keys@;
        let ghost cells = wi * wi;
        let (cx, cy) = self.cell_coords(x, y);
        let first: i32 = if cx > 0 { cx - 1 } else { 0 };
        let last: i32 = if cx < w - 1 { cx + 1 } else { w - 1 };
        let top: i32 = if cy > 0 { cy - 1 } else { 0 };
        let bottom: i32 = if cy < w - 1 { cy + 1 } else { w - 1 };
        proof {
            lemma_count_below_all(keys, cells);
        }

        let mut ranges: Vec<(usize, usize)> = Vec::new();
        let mut row: i32 = top;
        while row <= bottom
            invariant
                self.wf(),
                w == self.width,
                1 <= wi,
                wi == w as int,
                cells == wi * wi,
                keys == self.keys@,
                count_below(keys, cells) == keys.len(),
                first as int == block_lo(x as int, wi),
                last as int == block_hi(x as int, wi),
                top as int == block_lo(y as int, wi),
                bottom as int == block_hi(y as int, wi),
                0 <= first <= last < w,
                0 <= top <= bottom < w,
                top <= row <= bottom + 1,
                ranges@.len() == row - top,
                forall|i: int| 0 <= i < ranges.len() ==> {
                    let r = top + i;
                    &&& #[trigger] ranges@[i].0 as int == count_below(keys, r * wi + first)
                    &&& ranges@[i].1 as int == count_below(keys, r * wi + last + 1)
                    &&& ranges@[i].0 <= ranges@[i].1 <= keys.len()
                },
            decreases bottom - row + 1,
        {
            proof {
                lemma_key_bounds(row as int, last as int, wi);
                lemma_count_below_mono(keys, row * wi + first, row * wi + last + 1);
                lemma_count_below_mono(keys, row * wi + last + 1, cells);
            }
            let base = (row as usize) * (w as usize);
            let begin = self.starts[base + first as usize] as usize;
            let end = self.starts[base + last as usize + 1] as usize;
            ranges.push((begin, end));
            row = row + 1;
        }

        proof {
            assert forall|i: int, j: int| 0 <= i < j < ranges.len() implies #[trigger] ranges@[i].1 <= #[trigger] ranges@[j].0 by {
                let ri = top + i;
                let rj = top + j;
                assert(ranges@[i].0 <= ranges@[i].1);
                assert(ranges@[j].0 <= ranges@[j].1);
                assert(ri * wi + last + 1 <= rj * wi + first) by (nonlinear_arith)
                    requires
                        ri < rj,
                        0 <= first,
                        last < wi,
                        0 < wi,
                ;
                lemma_count_below_mono(keys, ri * wi + last + 1, rj * wi + first);
            }
            assert forall|k: int| 0 <= k < keys.len() implies (
                in_ranges(ranges@, #[trigger] slot_of(keys, k))
                <==> near(keys[k] as int, cx as int, cy as int, wi)
            ) by {
                let c = keys[k] as int;
                let s = slot_of(keys, k);
                lemma_slot_in_cell(keys, k);
                lemma_split_key(c, wi);
                let kr = c / wi;
                let kc = c % wi;
                if in_ranges(ranges@, s) {
                    let i = choose|i: int| 0 <= i < ranges@.len() && ranges@[i].0 <= s < #[trigger] ranges@[i].1;
                    let r = top + i;
                    let a = r * wi + first;
                    let b = r * wi + last + 1;
                    if c < a {
                        lemma_count_below_mono(keys, c + 1, a);
                    }
                    if c >= b {
                        lemma_count_below_mono(keys, b, c);
                    }
                    lemma_row_col(c, r, c - r * wi, wi);
                }
                if near(c, cx as int, cy as int, wi) {
                    let i = kr - top;
                    let a = kr * wi + first;
                    let b = kr * wi + last + 1;
                    lemma_count_below_mono(keys, a, c);
                    lemma_count_below_mono(keys, c + 1, b);
                    assert(top <= kr <= bottom);
                    assert(first <= kc <= last);
                    assert(0 <= i < ranges@.len());
                    assert(ranges@[i].0 as int == count_below(keys, (top + i) * wi + first));
                    assert(ranges@[i].1 as int == count_below(keys, (top + i) * wi + last + 1));
                    assert(a <= c < b);
                    assert(ranges@[i].0 <= s < ranges@[i].1);
                }
            }
        }
        ranges
    }
}

} // verus!
