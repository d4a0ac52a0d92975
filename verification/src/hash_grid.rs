//! A grid of unbounded square cells kept in bevy's hash map, for neighbour
//! search: every cell that ever held an entry keeps its key and lists the
//! entries in it, by their index in build order.
//!
//! Positions are floating point and stay with the caller: it hands each entry
//! in with the cell it lies in (the floor of `position / cell_size`).
use vstd::prelude::*;
use vstd::arithmetic::div_mod::lemma_fundamental_div_mod_converse;
use bevy::utils::HashMap;

verus! {

/// bevy's hash map from a cell to the indices of the entries in it.
///
/// hashbrown's map takes an allocator parameter whose bound hashbrown does
/// not export, so the map cannot be declared to Verus; it is held here and
/// reached only through the wrappers below.
#[verifier::external_body]
pub struct CellMap {
    map: HashMap<(i32, i32), Vec<u32>>,
}

/// What a `CellMap` holds: the entry indices of every cell it has a key for.
pub uninterp spec fn cell_map(m: CellMap) -> Map<(i32, i32), Seq<u32>>;

impl CellMap {
    /// Calls `HashMap::default`; its contract, taken on trust, is that the
    /// new map has no keys.
    #[verifier::external_body]
    pub(crate) fn new() -> (fresh: CellMap)
        ensures
            cell_map(fresh) == no_cells(),
    {
        CellMap { map: HashMap::default() }
    }

    /// Calls `HashMap::keys` and collects them; its contract, taken on trust,
    /// is that every key of the map comes out exactly once. The order, which
    /// is the map's own, is left unsaid.
    #[verifier::external_body]
    pub(crate) fn cells(&self) -> (cells: Vec<(i32, i32)>)
        ensures
            cells@.to_set() == cell_map(*self).dom(),
            cells@.no_duplicates(),
    {
        self.map.keys().copied().collect()
    }

    /// Calls `HashMap::insert` with an empty list; its contract, taken on
    /// trust, is that the cell then has a key and holds nothing, and no other
    /// cell changes.
    #[verifier::external_body]
    pub(crate) fn empty_cell(&mut self, cell: (i32, i32))
        ensures
            cell_map(*final(self)) == cell_map(*old(self)).insert(cell, Seq::<u32>::empty()),
    {
        self.map.insert(cell, Vec::new());
    }

    /// Calls `HashMap::entry(..).or_default()` and pushes onto the list it
    /// gives; its contract, taken on trust, is that `index` is appended to
    /// the cell's list (an empty one for a new key) and no other cell changes.
    #[verifier::external_body]
    pub(crate) fn push(&mut self, cell: (i32, i32), index: u32)
        ensures
            cell_map(*final(self)) == cell_map(*old(self)).insert(
                cell,
                lookup(cell_map(*old(self)), cell).push(index),
            ),
    {
        self.map.entry(cell).or_default().push(index);
    }

    /// Calls `HashMap::get`; its contract, taken on trust, is that it gives
    /// the cell's list exactly when the map has a key for the cell.
    #[verifier::external_body]
    pub(crate) fn get(&self, cell: (i32, i32)) -> (indices: Option<&Vec<u32>>)
        ensures
            match indices {
                Some(v) => cell_map(*self).dom().contains(cell) && v@ == cell_map(*self)[cell],
                None => !cell_map(*self).dom().contains(cell),
            },
    {
        self.map.get(&cell)
    }
}

/// A map with no keys.
pub open spec fn no_cells() -> Map<(i32, i32), Seq<u32>> {
    Map::empty()
}

/// The indices that `m` lists for `cell`; none for a cell it has no key for.
pub open spec fn lookup(m: Map<(i32, i32), Seq<u32>>, cell: (i32, i32)) -> Seq<u32> {
    if m.dom().contains(cell) {
        m[cell]
    } else {
        Seq::empty()
    }
}

/// The indices, in increasing order, of the entries of `coords` in `cell`.
pub open spec fn bucket(coords: Seq<(i32, i32)>, cell: (i32, i32)) -> Seq<u32>
    decreases coords.len(),
{
    if coords.len() == 0 {
        Seq::empty()
    } else {
        let rest = bucket(coords.drop_last(), cell);
        if coords.last() == cell {
            rest.push((coords.len() - 1) as u32)
        } else {
            rest
        }
    }
}

/// The lists of `cells`, one after the other.
pub open spec fn gather(m: Map<(i32, i32), Seq<u32>>, cells: Seq<(i32, i32)>) -> Seq<u32>
    decreases cells.len(),
{
    if cells.len() == 0 {
        Seq::empty()
    } else {
        gather(m, cells.drop_last()) + lookup(m, cells.last())
    }
}

/// The 3x3 block of cells around `center`, row by row from below.
pub open spec fn block_cells(center: (i32, i32)) -> Seq<(i32, i32)> {
    Seq::new(9, |i: int| ((center.0 + i % 3 - 1) as i32, (center.1 + i / 3 - 1) as i32))
}

/// Whether `cell` lies in the 3x3 block around `center`.
pub open spec fn in_block(cell: (i32, i32), center: (i32, i32)) -> bool {
    &&& center.0 - 1 <= cell.0 <= center.0 + 1
    &&& center.1 - 1 <= cell.1 <= center.1 + 1
}

/// A block around `center` needs no coordinate past the range of `i32`.
pub open spec fn block_fits(center: (i32, i32)) -> bool {
    &&& i32::MIN < center.0 < i32::MAX
    &&& i32::MIN < center.1 < i32::MAX
}

/// Law: a cell's list holds, in increasing order, exactly the indices of the
/// entries that lie in that cell.
pub proof fn lemma_bucket(coords: Seq<(i32, i32)>, cell: (i32, i32))
    requires
        coords.len() <= u32::MAX + 1,
    ensures
        forall|i: int| 0 <= i < bucket(coords, cell).len() ==> {
            &&& (#[trigger] bucket(coords, cell)[i] as int) < coords.len()
            &&& coords[bucket(coords, cell)[i] as int] == cell
        },
        forall|i: int, j: int| 0 <= i < j < bucket(coords, cell).len()
            ==> #[trigger] bucket(coords, cell)[i] < #[trigger] bucket(coords, cell)[j],
        forall|k: int| 0 <= k < coords.len() && coords[k] == cell ==> #[trigger] bucket(coords, cell).contains(k as u32),
    decreases coords.len(),
{
    if coords.len() > 0 {
        let t = coords.drop_last();
        lemma_bucket(t, cell);
        let b = bucket(coords, cell);
        let r = bucket(t, cell);
        assert forall|k: int| 0 <= k < coords.len() && coords[k] == cell implies #[trigger] b.contains(k as u32) by {
            if k < t.len() {
                assert(t[k] == coords[k]);
                assert(r.contains(k as u32));
                let i = choose|i: int| 0 <= i < r.len() && r[i] == k as u32;
                assert(b[i] == k as u32);
            } else {
                assert(b[b.len() - 1] == k as u32);
            }
        }
        assert forall|i: int| 0 <= i < b.len() implies {
            &&& (#[trigger] b[i] as int) < coords.len()
            &&& coords[b[i] as int] == cell
        } by {
            if i < r.len() {
                assert(b[i] == r[i]);
                assert(t[r[i] as int] == coords[r[i] as int]);
            }
        }
    }
}

/// Law: the block around a cell lists nine distinct cells, which are exactly
/// those at most one column and one row away.
pub proof fn lemma_block_cells(center: (i32, i32))
    requires
        block_fits(center),
    ensures
        block_cells(center).no_duplicates(),
        forall|cell: (i32, i32)| #[trigger] block_cells(center).contains(cell) <==> in_block(cell, center),
{
    let cs = block_cells(center);
    assert forall|i: int| 0 <= i < 9 implies {
        &&& #[trigger] cs[i].0 == center.0 + i % 3 - 1
        &&& cs[i].1 == center.1 + i / 3 - 1
        &&& 0 <= i % 3 < 3
        &&& 0 <= i / 3 < 3
        &&& i == (i / 3) * 3 + i % 3
    } by {
        vstd::arithmetic::div_mod::lemma_fundamental_div_mod(i, 3);
        assert(0 <= i % 3 < 3);
        assert(0 <= i / 3 < 3);
    }
    assert forall|i: int, j: int| 0 <= i < cs.len() && 0 <= j < cs.len() && i != j implies cs[i] != cs[j] by {
        assert(cs[i].0 == center.0 + i % 3 - 1);
        assert(cs[j].0 == center.0 + j % 3 - 1);
    }
    assert forall|cell: (i32, i32)| #[trigger] cs.contains(cell) <==> in_block(cell, center) by {
        if in_block(cell, center) {
            let dx = cell.0 - center.0 + 1;
            let dy = cell.1 - center.1 + 1;
            let i = dy * 3 + dx;
            lemma_fundamental_div_mod_converse(i, 3, dy, dx);
            assert(cs[i].0 == center.0 + i % 3 - 1);
            assert(cs[i] == cell);
        }
        if cs.contains(cell) {
            let i = choose|i: int| 0 <= i < cs.len() && cs[i] == cell;
            assert(cs[i].0 == center.0 + i % 3 - 1);
        }
    }
}

/// What gathering the lists of distinct cells gives, for a map that lists
/// every entry under its own cell.
#[verifier::spinoff_prover]
proof fn lemma_gather(m: Map<(i32, i32), Seq<u32>>, coords: Seq<(i32, i32)>, cells: Seq<(i32, i32)>)
    requires
        coords.len() <= u32::MAX + 1,
        cells.no_duplicates(),
        forall|c: (i32, i32)| #[trigger] m.dom().contains(c) ==> m[c] == bucket(coords, c),
        forall|k: int| 0 <= k < coords.len() ==> m.dom().contains(#[trigger] coords[k]),
    ensures
        gather(m, cells).no_duplicates(),
        forall|v: u32| #[trigger] gather(m, cells).contains(v)
            <==> (v < coords.len() && cells.contains(coords[v as int])),
    decreases cells.len(),
{
    if cells.len() > 0 {
        let front = cells.drop_last();
        let last = cells.last();
        assert(front.no_duplicates());
        lemma_gather(m, coords, front);
        lemma_bucket(coords, last);
        let g = gather(m, front);
        let l = lookup(m, last);
        let all = gather(m, cells);
        assert(all == g + l);
        assert forall|v: u32| #[trigger] l.contains(v) <==> (v < coords.len() && coords[v as int] == last) by {
            if l.contains(v) {
                let i = choose|i: int| 0 <= i < l.len() && l[i] == v;
                assert(m.dom().contains(last));
                assert(bucket(coords, last)[i] == v);
            }
            if v < coords.len() && coords[v as int] == last {
                assert(m.dom().contains(coords[v as int]));
                assert(bucket(coords, last).contains(v as int as u32));
            }
        }
        assert forall|c: (i32, i32)| #[trigger] cells.contains(c) <==> (front.contains(c) || c == last) by {
            if cells.contains(c) {
                let i = choose|i: int| 0 <= i < cells.len() && cells[i] == c;
                if i < front.len() {
                    assert(front[i] == c);
                }
            }
            if front.contains(c) {
                let i = choose|i: int| 0 <= i < front.len() && front[i] == c;
                assert(cells[i] == c);
            }
            if c == last {
                assert(cells[cells.len() - 1] == c);
            }
        }
        assert(!front.contains(last)) by {
            if front.contains(last) {
                let i = choose|i: int| 0 <= i < front.len() && front[i] == last;
                assert(cells[i] == cells[cells.len() - 1]);
            }
        }
        assert forall|v: u32| #[trigger] all.contains(v) <==> (v < coords.len() && cells.contains(coords[v as int])) by {
            if all.contains(v) {
                let i = choose|i: int| 0 <= i < all.len() && all[i] == v;
                if i < g.len() {
                    assert(g.contains(v));
                } else {
                    assert(l[i - g.len()] == v);
                    assert(l.contains(v));
                }
            }
            if v < coords.len() && cells.contains(coords[v as int]) {
                if front.contains(coords[v as int]) {
                    assert(g.contains(v));
                    let i = choose|i: int| 0 <= i < g.len() && g[i] == v;
                    assert(all[i] == v);
                } else {
                    assert(l.contains(v));
                    let i = choose|i: int| 0 <= i < l.len() && l[i] == v;
                    assert(all[g.len() + i] == v);
                }
            }
        }
        assert forall|i: int, j: int| 0 <= i < all.len() && 0 <= j < all.len() && i != j implies all[i] != all[j] by {
            if i < g.len() && j < g.len() {
            } else if i >= g.len() && j >= g.len() {
                let a = i - g.len();
                let b = j - g.len();
                if a < b {
                    assert(bucket(coords, last)[a] < bucket(coords, last)[b]);
                } else {
                    assert(bucket(coords, last)[b] < bucket(coords, last)[a]);
                }
            } else {
                let (x, y) = if i < g.len() { (i, j - g.len()) } else { (j, i - g.len()) };
                assert(g.contains(g[x]));
                assert(l.contains(l[y]));
                assert(front.contains(coords[g[x] as int]));
                assert(coords[l[y] as int] == last);
            }
        }
    }
}

/// The cell of the `i`-th cell of the block around `center`.
fn block_cell(center: (i32, i32), i: i32) -> (cell: (i32, i32))
    requires
        block_fits(center),
        0 <= i < 9,
    ensures
        cell == block_cells(center)[i as int],
{
    (center.0 + (i % 3 - 1), center.1 + (i / 3 - 1))
}

/// Cell size equals the smoothing radius, so neighbours are in the 3x3
/// block. Entries are kept in build order; the map lists their indices.
pub struct SpatialGrid<T> {
    cells: CellMap,
    entries: Vec<T>,
    coords: Ghost<Seq<(i32, i32)>>,
}

impl<T: Copy> SpatialGrid<T> {
    /// The cell of every entry, in build order.
    pub closed spec fn cell_coords(self) -> Seq<(i32, i32)> {
        self.coords@
    }

    /// Entries in build order.
    pub closed spec fn stored(self) -> Seq<T> {
        self.entries@
    }

    /// Every cell the grid has a key for, with the entries it lists.
    pub closed spec fn buckets(self) -> Map<(i32, i32), Seq<u32>> {
        cell_map(self.cells)
    }

    /// Each cell lists exactly the entries in it, in build order.
    pub closed spec fn wf(self) -> bool {
        let coords = self.coords@;
        let m = cell_map(self.cells);
        &&& self.entries@.len() == coords.len()
        &&& coords.len() <= u32::MAX
        &&& forall|c: (i32, i32)| #[trigger] m.dom().contains(c) ==> m[c] == bucket(coords, c)
        &&& forall|k: int| 0 <= k < coords.len() ==> m.dom().contains(#[trigger] coords[k])
    }

    /// Law: in a well-formed grid every cell lists the entries in it, and
    /// the cell of every entry has a key.
    pub proof fn lemma_wf(self)
        requires
            self.wf(),
        ensures
            self.stored().len() == self.cell_coords().len(),
            forall|c: (i32, i32)| #[trigger] self.buckets().dom().contains(c)
                ==> self.buckets()[c] == bucket(self.cell_coords(), c),
            forall|k: int| 0 <= k < self.cell_coords().len()
                ==> self.buckets().dom().contains(#[trigger] self.cell_coords()[k]),
    {
    }

    /// An empty grid with no cells.
    pub fn new() -> (grid: Self)
        ensures
            grid.wf(),
            grid.stored().len() == 0,
            grid.buckets() == no_cells(),
    {
        SpatialGrid { cells: CellMap::new(), entries: Vec::new(), coords: Ghost(Seq::empty()) }
    }

    /// Empties every cell, keeping its key, then files each entry of `input`
    /// under the cell it comes with. The entries before are dropped.
    #[verifier::spinoff_prover]
    pub fn rebuild(&mut self, input: Vec<((i32, i32), T)>)
        requires
            old(self).wf(),
            input.len() <= u32::MAX,
        ensures
            final(self).wf(),
            final(self).cell_coords() == input@.map_values(|p: ((i32, i32), T)| p.0),
            final(self).stored() == input@.map_values(|p: ((i32, i32), T)| p.1),
            final(self).buckets().dom() == old(self).buckets().dom().union(
                input@.map_values(|p: ((i32, i32), T)| p.0).to_set(),
            ),
            forall|c: (i32, i32)| #[trigger] final(self).buckets().dom().contains(c)
                ==> final(self).buckets()[c] == bucket(final(self).cell_coords(), c),
    {
        let ghost old_dom = cell_map(self.cells).dom();
        let keys = self.cells.cells();
        // A fresh map, so that no index of the previous build can linger;
        // every cell seen before gets its key back, holding nothing.
        self.cells = CellMap::new();
        for i in 0..keys.len()
            invariant
                keys@.to_set() == old_dom,
                cell_map(self.cells).dom() == keys@.take(i as int).to_set(),
                forall|c: (i32, i32)| #[trigger] cell_map(self.cells).dom().contains(c)
                    ==> cell_map(self.cells)[c] == Seq::<u32>::empty(),
        {
            self.cells.empty_cell(keys[i]);
            proof {
                let t = keys@.take(i + 1);
                assert(t.to_set() =~= keys@.take(i as int).to_set().insert(keys@[i as int])) by {
                    assert forall|c: (i32, i32)| t.to_set().contains(c) implies keys@.take(i as int).to_set().insert(keys@[i as int]).contains(c) by {
                        let j = choose|j: int| 0 <= j < t.len() && t[j] == c;
                        if j < i {
                            assert(keys@.take(i as int)[j] == c);
                        }
                    }
                    assert forall|c: (i32, i32)| keys@.take(i as int).to_set().insert(keys@[i as int]).contains(c) implies t.to_set().contains(c) by {
                        if c == keys@[i as int] {
                            assert(t[i as int] == c);
                        } else {
                            let j = choose|j: int| 0 <= j < i && keys@.take(i as int)[j] == c;
                            assert(t[j] == c);
                        }
                    }
                }
            }
        }
        proof {
            assert(keys@.take(keys@.len() as int) =~= keys@);
            assert forall|c: (i32, i32)| #[trigger] cell_map(self.cells).dom().contains(c)
                implies cell_map(self.cells)[c] == bucket(Seq::<(i32, i32)>::empty(), c) by {
            }
        }

        let n = input.len();
        let ghost coords = input@.map_values(|p: ((i32, i32), T)| p.0);
        let mut entries: Vec<T> = Vec::new();
        for k in 0..n
            invariant
                n == input.len(),
                n <= u32::MAX,
                coords == input@.map_values(|p: ((i32, i32), T)| p.0),
                entries@ == input@.map_values(|p: ((i32, i32), T)| p.1).take(k as int),
                cell_map(self.cells).dom() == old_dom.union(coords.take(k as int).to_set()),
                forall|c: (i32, i32)| #[trigger] cell_map(self.cells).dom().contains(c)
                    ==> cell_map(self.cells)[c] == bucket(coords.take(k as int), c),
        {
            let (cell, entry) = input[k];
            let ghost before = cell_map(self.cells);
            self.cells.push(cell, k as u32);
            entries.push(entry);
            proof {
                let t = coords.take(k + 1);
                assert(t.drop_last() =~= coords.take(k as int));
                assert(t.last() == cell);
                assert forall|c: (i32, i32)| #[trigger] cell_map(self.cells).dom().contains(c)
                    implies cell_map(self.cells)[c] == bucket(t, c) by {
                    if c != cell {
                        assert(before.dom().contains(c));
                    } else if !before.dom().contains(c) {
                        lemma_bucket(coords.take(k as int), c);
                        let b = bucket(coords.take(k as int), c);
                        if b.len() > 0 {
                            assert(coords.take(k as int)[b[0] as int] == c);
                            assert(coords.take(k as int).to_set().contains(c));
                        }
                        assert(b =~= Seq::<u32>::empty());
                    }
                }
                assert(t.to_set() =~= coords.take(k as int).to_set().insert(cell)) by {
                    assert forall|c: (i32, i32)| t.to_set().contains(c) implies coords.take(k as int).to_set().insert(cell).contains(c) by {
                        let j = choose|j: int| 0 <= j < t.len() && t[j] == c;
                        if j < k {
                            assert(coords.take(k as int)[j] == c);
                        }
                    }
                    assert forall|c: (i32, i32)| coords.take(k as int).to_set().insert(cell).contains(c) implies t.to_set().contains(c) by {
                        if c == cell {
                            assert(t[k as int] == c);
                        } else {
                            let j = choose|j: int| 0 <= j < k && coords.take(k as int)[j] == c;
                            assert(t[j] == c);
                        }
                    }
                }
                assert(cell_map(self.cells).dom() =~= old_dom.union(t.to_set()));
                assert(entries@ =~= input@.map_values(|p: ((i32, i32), T)| p.1).take(k + 1));
            }
        }
        proof {
            assert(coords.take(n as int) =~= coords);
            assert(input@.map_values(|p: ((i32, i32), T)| p.1).take(n as int) =~= input@.map_values(|p: ((i32, i32), T)| p.1));
            assert forall|k: int| 0 <= k < coords.len() implies cell_map(self.cells).dom().contains(#[trigger] coords[k]) by {
                assert(coords.to_set().contains(coords[k]));
            }
        }
        self.entries = entries;
        self.coords = Ghost(coords);
    }

    /// Entries in build order.
    pub fn entries(&self) -> (entries: &[T])
        ensures
            entries@ == self.stored(),
    {
        self.entries.as_slice()
    }

    /// Indices of the entries in the 3x3 block of cells around `center`,
    /// cell by cell, row by row from below. Each entry in the block is listed
    /// once, the querying entry itself included, and no other entry is.
    pub fn neighbour_indices(&self, center: (i32, i32)) -> (found: Vec<u32>)
        requires
            self.wf(),
            block_fits(center),
        ensures
            found@ == gather(self.buckets(), block_cells(center)),
            found@.no_duplicates(),
            forall|v: u32| #[trigger] found@.contains(v)
                <==> (v < self.cell_coords().len() && in_block(self.cell_coords()[v as int], center)),
    {
        let ghost m = cell_map(self.cells);
        let mut found: Vec<u32> = Vec::new();
        let mut i: i32 = 0;
        while i < 9
            invariant
                0 <= i <= 9,
                block_fits(center),
                m == cell_map(self.cells),
                found@ == gather(m, block_cells(center).take(i as int)),
            decreases 9 - i,
        {
            let cell = block_cell(center, i);
            let ghost prefix = found@;
            match self.cells.get(cell) {
                Some(list) => {
                    let mut j: usize = 0;
                    while j < list.len()
                        invariant
                            j <= list@.len(),
                            found@ == prefix + list@.take(j as int),
                        decreases list@.len() - j,
                    {
                        found.push(list[j]);
                        proof {
                            assert(list@.take(j + 1) =~= list@.take(j as int).push(list@[j as int]));
                        }
                        j = j + 1;
                    }
                    proof {
                        assert(list@.take(list@.len() as int) =~= list@);
                    }
                },
                None => {},
            }
            proof {
                let cs = block_cells(center).take(i + 1);
                assert(cs.drop_last() =~= block_cells(center).take(i as int));
                assert(cs.last() == cell);
                assert(found@ =~= gather(m, cs));
            }
            i = i + 1;
        }
        proof {
            assert(block_cells(center).take(9) =~= block_cells(center));
            lemma_block_cells(center);
            lemma_gather(m, self.coords@, block_cells(center));
        }
        found
    }
}

} // verus!
