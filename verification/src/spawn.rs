//! Where particles start: a block of `w` by `h` lattice sites, the caller
//! turning each site into a jittered position.
use vstd::prelude::*;
use crate::controls::SpawnLayout;
use vstd::arithmetic::div_mod::lemma_fundamental_div_mod_converse;

verus! {

/// Lattice sites across and up for the dropped block.
pub const DROP_SIZE: (usize, usize) = (80, 50);
/// Lattice sites across and up for the dam-break column.
pub const DAM_SIZE: (usize, usize) = (50, 80);

/// Lattice sites across and up for a layout.
pub open spec fn block_of(layout: SpawnLayout) -> (usize, usize) {
    match layout {
        SpawnLayout::DamBreak => DAM_SIZE,
        SpawnLayout::Drop => DROP_SIZE,
    }
}

/// The size of the block for a layout.
pub fn layout_size(layout: SpawnLayout) -> (size: (usize, usize))
    ensures
        size == block_of(layout),
{
    match layout {
        SpawnLayout::DamBreak => DAM_SIZE,
        SpawnLayout::Drop => DROP_SIZE,
    }
}

/// Every site of a `w` by `h` block once, column by column: site `(x, y)`
/// comes `x * h + y`-th.
pub fn lattice(w: usize, h: usize) -> (sites: Vec<(usize, usize)>)
    requires
        w * h <= usize::MAX,
    ensures
        sites@.len() == w * h,
        forall|x: int, y: int| 0 <= x < w && 0 <= y < h ==> #[trigger] sites@[x * h + y] == (x as usize, y as usize),
        forall|i: int| 0 <= i < sites@.len() ==> (#[trigger] sites@[i]).0 < w && sites@[i].1 < h,
{
    let mut sites: Vec<(usize, usize)> = Vec::new();
    proof {
        assert(0 * (h as int) == 0) by (nonlinear_arith);
    }
    for x in 0..w
        invariant
            w * h <= usize::MAX,
            sites@.len() == x * h,
            forall|i: int| 0 <= i < sites@.len() ==> #[trigger] sites@[i] == ((i / h as int) as usize, (i % h as int) as usize),
            forall|i: int| 0 <= i < sites@.len() ==> (#[trigger] sites@[i]).0 < w && sites@[i].1 < h,
    {
        for y in 0..h
            invariant
                x < w,
                w * h <= usize::MAX,
                sites@.len() == x * h + y,
                forall|i: int| 0 <= i < sites@.len() ==> #[trigger] sites@[i] == ((i / h as int) as usize, (i % h as int) as usize),
                forall|i: int| 0 <= i < sites@.len() ==> (#[trigger] sites@[i]).0 < w && sites@[i].1 < h,
        {
            proof {
                lemma_fundamental_div_mod_converse(x * h + y, h as int, x as int, y as int);
            }
            sites.push((x, y));
        }
        proof {
            assert((x + 1) * h == x * h + h) by (nonlinear_arith);
        }
    }
    proof {
        assert forall|x: int, y: int| 0 <= x < w && 0 <= y < h implies #[trigger] sites@[x * h + y] == (x as usize, y as usize) by {
            assert(0 <= x * h + y < w * h) by (nonlinear_arith)
                requires
                    0 <= x < w,
                    0 <= y < h,
            ;
            lemma_fundamental_div_mod_converse(x * h + y, h as int, x, y);
        }
    }
    sites
}

/// The sites of the block for a layout.
pub fn spawn_sites(layout: SpawnLayout) -> (sites: Vec<(usize, usize)>)
    ensures
        sites@.len() == block_of(layout).0 * block_of(layout).1,
        forall|x: int, y: int|
            0 <= x < block_of(layout).0 && 0 <= y < block_of(layout).1
                ==> #[trigger] sites@[x * block_of(layout).1 + y] == (x as usize, y as usize),
{
    let (w, h) = layout_size(layout);
    lattice(w, h)
}

/// The particles are respawned when space is pressed or a reset was asked for.
pub fn should_reset(space_pressed: bool, requested: bool) -> (reset: bool)
    ensures
        reset <==> space_pressed || requested,
{
    space_pressed || requested
}

} // verus!
