//! Radial block topology of the mesh: which blocks exist, where the ghost
//! blocks sit, and how the moving excision surfaces change the set of blocks.
use vstd::prelude::*;

verus! {

/// A block is identified by its radial shell (signed, so that ghost blocks
/// just inside the mesh can be named) and its polar strip (always 0: the
/// polar direction is not subdivided).
pub type BlockIndex = (i32, usize);

/// Smallest radial index among `keys`; `i32::MAX` when there are none.
pub open spec fn lowest(keys: Seq<BlockIndex>) -> int
    decreases keys.len(),
{
    if keys.len() == 0 {
        i32::MAX as int
    } else {
        let rest = lowest(keys.drop_last());
        let i = keys.last().0 as int;
        if i < rest { i } else { rest }
    }
}

/// Largest radial index among `keys`; `i32::MIN` when there are none.
pub open spec fn highest(keys: Seq<BlockIndex>) -> int
    decreases keys.len(),
{
    if keys.len() == 0 {
        i32::MIN as int
    } else {
        let rest = highest(keys.drop_last());
        let i = keys.last().0 as int;
        if i > rest { i } else { rest }
    }
}

/// Every radial index shifted by `delta` in either direction stays an `i32`.
pub open spec fn offsets_fit(keys: Seq<BlockIndex>, delta: int) -> bool {
    forall|k: int|
        0 <= k < keys.len() ==> i32::MIN <= #[trigger] keys[k].0 - delta <= i32::MAX
            && i32::MIN <= keys[k].0 + delta <= i32::MAX
}

/// The pair (lowest index - delta, highest index + delta), both in polar strip
/// 0; for no keys at all, the empty range `(i32::MAX, i32::MIN)`.
pub open spec fn offset_extremes(keys: Seq<BlockIndex>, delta: int) -> (int, int) {
    if keys.len() == 0 {
        (i32::MAX as int, i32::MIN as int)
    } else {
        (lowest(keys) - delta, highest(keys) + delta)
    }
}

/// The keys all lie in polar strip 0 and their radial indexes form one
/// unbroken run: there are no holes between the innermost and outermost shell.
pub open spec fn contiguous(keys: Set<BlockIndex>) -> bool {
    &&& forall|b: BlockIndex| #[trigger] keys.contains(b) ==> b.1 == 0
    &&& forall|a: BlockIndex, b: BlockIndex, i: int|
        #![trigger keys.contains(a), keys.contains(b), keys.contains((i as i32, 0usize))]
        keys.contains(a) && keys.contains(b) && a.0 <= i <= b.0 ==> keys.contains(
            (i as i32, 0usize),
        )
}

/// The lowest index is a lower bound of all keys and is one of them.
pub proof fn lemma_lowest(keys: Seq<BlockIndex>)
    requires
        keys.len() > 0,
    ensures
        forall|k: int| 0 <= k < keys.len() ==> lowest(keys) <= #[trigger] keys[k].0,
        exists|k: int| 0 <= k < keys.len() && lowest(keys) == #[trigger] keys[k].0,
    decreases keys.len(),
{
    let rest = keys.drop_last();
    if rest.len() == 0 {
        assert(keys[0].0 == lowest(keys));
    } else {
        lemma_lowest(rest);
        let k0 = choose|k: int| 0 <= k < rest.len() && lowest(rest) == #[trigger] rest[k].0;
        assert(forall|k: int| 0 <= k < rest.len() ==> rest[k] == keys[k]);
        if keys.last().0 < lowest(rest) {
            assert(keys[keys.len() - 1].0 == lowest(keys));
        } else {
            assert(keys[k0].0 == lowest(keys));
        }
    }
}

/// The highest index is an upper bound of all keys and is one of them.
pub proof fn lemma_highest(keys: Seq<BlockIndex>)
    requires
        keys.len() > 0,
    ensures
        forall|k: int| 0 <= k < keys.len() ==> highest(keys) >= #[trigger] keys[k].0,
        exists|k: int| 0 <= k < keys.len() && highest(keys) == #[trigger] keys[k].0,
    decreases keys.len(),
{
    let rest = keys.drop_last();
    if rest.len() == 0 {
        assert(keys[0].0 == highest(keys));
    } else {
        lemma_highest(rest);
        let k0 = choose|k: int| 0 <= k < rest.len() && highest(rest) == #[trigger] rest[k].0;
        assert(forall|k: int| 0 <= k < rest.len() ==> rest[k] == keys[k]);
        if keys.last().0 > highest(rest) {
            assert(keys[keys.len() - 1].0 == highest(keys));
        } else {
            assert(keys[k0].0 == highest(keys));
        }
    }
}

/// Return the lowest radial index less `delta` and the highest radial index
/// plus `delta`, each paired with polar strip 0.
pub fn min_max_block_indexes_offset_by(keys: &Vec<BlockIndex>, delta: i32) -> (r: (
    BlockIndex,
    BlockIndex,
))
    requires
        offsets_fit(keys@, delta as int),
    ensures
        r.0.1 == 0,
        r.1.1 == 0,
        (r.0.0 as int, r.1.0 as int) == offset_extremes(keys@, delta as int),
{
    let mut lo: i32 = i32::MAX;
    let mut hi: i32 = i32::MIN;
    let mut n: usize = 0;
    while n < keys.len()
        invariant
            n <= keys.len(),
            offsets_fit(keys@, delta as int),
            (lo as int, hi as int) == offset_extremes(keys@.take(n as int), delta as int),
        decreases keys.len() - n,
    {
        let i = keys[n].0;
        let a = i - delta;
        let b = i + delta;
        let ghost prefix = keys@.take(n as int + 1);
        proof {
            assert(prefix.drop_last() =~= keys@.take(n as int));
            assert(prefix.last() == keys@[n as int]);
            assert(lowest(prefix) == (if (i as int) < lowest(keys@.take(n as int)) { i as int } else { lowest(keys@.take(n as int)) }));
            assert(highest(prefix) == (if (i as int) > highest(keys@.take(n as int)) { i as int } else { highest(keys@.take(n as int)) }));
        }
        if n == 0 || a < lo {
            lo = a;
        }
        if n == 0 || b > hi {
            hi = b;
        }
        assert(lo == lowest(prefix) - delta);
        assert(hi == highest(prefix) + delta);
        n = n + 1;
    }
    assert(keys@.take(n as int) =~= keys@);
    ((lo, 0), (hi, 0))
}

/// Return the innermost and outermost existing blocks.
pub fn inner_outer_block_indexes(keys: &Vec<BlockIndex>) -> (r: (BlockIndex, BlockIndex))
    ensures
        r.0.1 == 0,
        r.1.1 == 0,
        (r.0.0 as int, r.1.0 as int) == offset_extremes(keys@, 0),
{
    min_max_block_indexes_offset_by(keys, 0)
}

/// Return the ghost blocks just inside the innermost and just outside the
/// outermost existing block.
pub fn inner_outer_boundary_indexes(keys: &Vec<BlockIndex>) -> (r: (BlockIndex, BlockIndex))
    requires
        offsets_fit(keys@, 1),
    ensures
        r.0.1 == 0,
        r.1.1 == 0,
        (r.0.0 as int, r.1.0 as int) == offset_extremes(keys@, 1),
{
    min_max_block_indexes_offset_by(keys, 1)
}

/// The blocks whose staged primitives the update of block `index` reads: its
/// inner neighbour, itself, and its outer neighbour.
pub fn stencil_indexes(index: BlockIndex) -> (r: (BlockIndex, BlockIndex, BlockIndex))
    requires
        i32::MIN < index.0 < i32::MAX,
    ensures
        r.0 == ((index.0 - 1) as i32, index.1),
        r.1 == index,
        r.2 == ((index.0 + 1) as i32, index.1),
{
    ((index.0 - 1, index.1), index, (index.0 + 1, index.1))
}

/// On a contiguous set of blocks, every neighbour that a block's stencil reads
/// is either an existing block or one of the two ghost blocks.
pub proof fn lemma_stencil_covered(keys: Seq<BlockIndex>, index: BlockIndex)
    requires
        contiguous(keys.to_set()),
        keys.contains(index),
        offsets_fit(keys, 1),
    ensures
        ({
            let (inner, outer) = offset_extremes(keys, 1);
            let below = index.0 - 1;
            let above = index.0 + 1;
            &&& keys.contains((below as i32, index.1)) || (below == inner && index.1 == 0)
            &&& keys.contains((above as i32, index.1)) || (above == outer && index.1 == 0)
        }),
{
    let s = keys.to_set();
    lemma_lowest(keys);
    lemma_highest(keys);
    assert(s.contains(index));
    let klo = choose|k: int| 0 <= k < keys.len() && lowest(keys) == #[trigger] keys[k].0;
    let khi = choose|k: int| 0 <= k < keys.len() && highest(keys) == #[trigger] keys[k].0;
    assert(s.contains(keys[klo]));
    assert(s.contains(keys[khi]));
    let k = choose|k: int| 0 <= k < keys.len() && keys[k] == index;
    assert(lowest(keys) <= keys[k].0 <= highest(keys));
    if index.0 - 1 >= lowest(keys) {
        assert(s.contains(((index.0 - 1) as i32, 0usize)));
    }
    if index.0 + 1 <= highest(keys) {
        assert(s.contains(((index.0 + 1) as i32, 0usize)));
    }
}

/// The change to the set of blocks made at the top of a full step: at most
/// one block removed and at most one block inserted.
#[derive(Clone, Copy, Debug, PartialEq, Eq)]
pub struct TopologyChange {
    pub removed: Option<BlockIndex>,
    pub inserted: Option<BlockIndex>,
}

/// What [`topology_change`] decides: drop the innermost block when the inner
/// excision surface has swallowed it, and insert the shell just past the
/// outermost block when the outer excision surface has passed that block.
pub open spec fn planned_change(
    keys: Seq<BlockIndex>,
    inner_swallowed: bool,
    outer_reached: bool,
) -> TopologyChange {
    if keys.len() == 0 {
        TopologyChange { removed: None, inserted: None }
    } else {
        TopologyChange {
            removed: if inner_swallowed {
                Some((lowest(keys) as i32, 0usize))
            } else {
                None
            },
            inserted: if outer_reached {
                Some(((highest(keys) + 1) as i32, 0usize))
            } else {
                None
            },
        }
    }
}

/// The set of blocks after `change` is applied: the removed block is taken
/// out, then the inserted block is put in.
pub open spec fn keys_after(keys: Set<BlockIndex>, change: TopologyChange) -> Set<BlockIndex> {
    let kept = match change.removed {
        Some(b) => keys.remove(b),
        None => keys,
    };
    match change.inserted {
        Some(b) => kept.insert(b),
        None => kept,
    }
}

/// Decide how the set of blocks changes before a full step. `inner_swallowed`
/// says whether the outer radius of the innermost block lies inside the inner
/// excision surface; `outer_reached` whether the outer radius of the outermost
/// block lies inside the outer excision surface. With no blocks, nothing
/// changes.
pub fn topology_change(keys: &Vec<BlockIndex>, inner_swallowed: bool, outer_reached: bool) -> (r:
    TopologyChange)
    requires
        offsets_fit(keys@, 1),
    ensures
        r == planned_change(keys@, inner_swallowed, outer_reached),
{
    if keys.len() == 0 {
        return TopologyChange { removed: None, inserted: None };
    }
    let (inner, outer) = inner_outer_block_indexes(keys);
    proof {
        lemma_highest(keys@);
    }
    let removed = if inner_swallowed {
        Some(inner)
    } else {
        None
    };
    let inserted = if outer_reached {
        Some((outer.0 + 1, outer.1))
    } else {
        None
    };
    TopologyChange { removed, inserted }
}

/// With both excision surfaces moving outward (so a swallowed inner block
/// comes with a reached outer one), the number of blocks never drops; a
/// removal is always of the innermost block, an insertion always of the shell
/// one past the outermost, which is new; and an unbroken run of blocks stays
/// unbroken.
pub proof fn lemma_topology_monotone(
    keys: Seq<BlockIndex>,
    inner_swallowed: bool,
    outer_reached: bool,
)
    requires
        keys.no_duplicates(),
        forall|k: int| 0 <= k < keys.len() ==> #[trigger] keys[k].1 == 0,
        offsets_fit(keys, 1),
        inner_swallowed ==> outer_reached,
    ensures
        ({
            let change = planned_change(keys, inner_swallowed, outer_reached);
            let after = keys_after(keys.to_set(), change);
            &&& after.len() >= keys.len()
            &&& change.removed matches Some(b) ==> keys.contains(b) && b.0 == lowest(keys)
            &&& change.inserted matches Some(b) ==> !keys.contains(b) && b.0 == highest(keys) + 1
            &&& contiguous(keys.to_set()) ==> contiguous(after)
        }),
{
    let change = planned_change(keys, inner_swallowed, outer_reached);
    let s = keys.to_set();
    keys.unique_seq_to_set();
    if keys.len() == 0 {
        assert(keys_after(s, change) == s);
        return;
    }
    lemma_lowest(keys);
    lemma_highest(keys);
    let klo = choose|k: int| 0 <= k < keys.len() && lowest(keys) == #[trigger] keys[k].0;
    let khi = choose|k: int| 0 <= k < keys.len() && highest(keys) == #[trigger] keys[k].0;
    let top: BlockIndex = ((highest(keys) + 1) as i32, 0usize);
    assert(!s.contains(top)) by {
        if s.contains(top) {
            let k = choose|k: int| 0 <= k < keys.len() && keys[k] == top;
            assert(keys[k].0 <= highest(keys));
        }
    }
    let bottom: BlockIndex = (lowest(keys) as i32, 0usize);
    assert(keys[klo] == bottom);
    assert(s.contains(bottom));
    assert(s.finite()) by {
        keys.lemma_cardinality_of_set();
    }
    let kept = match change.removed {
        Some(b) => s.remove(b),
        None => s,
    };
    if inner_swallowed {
        assert(kept.len() == s.len() - 1);
        assert(!kept.contains(top));
        assert(keys_after(s, change) == kept.insert(top));
        assert(kept.insert(top).len() == kept.len() + 1);
    } else if outer_reached {
        assert(keys_after(s, change).len() == s.len() + 1);
    }
    if contiguous(s) {
        assert(s.contains(keys[khi]));
        assert(keys[khi] == (highest(keys) as i32, 0usize));
        assert(contiguous(kept)) by {
            assert forall|a: BlockIndex, b: BlockIndex, i: int|
                #![trigger kept.contains(a), kept.contains(b), kept.contains((i as i32, 0usize))]
                kept.contains(a) && kept.contains(b) && a.0 <= i <= b.0 implies kept.contains(
                (i as i32, 0usize),
            ) by {
                assert(s.contains((i as i32, 0usize)));
                if inner_swallowed {
                    assert(a != bottom);
                    let ka = choose|k: int| 0 <= k < keys.len() && keys[k] == a;
                    assert(keys[ka].0 >= lowest(keys));
                    assert(a.1 == 0);
                    assert(a.0 > lowest(keys));
                }
            }
        }
        let after = keys_after(s, change);
        if outer_reached {
            assert(contiguous(after)) by {
                assert forall|a: BlockIndex, b: BlockIndex, i: int|
                    #![trigger after.contains(a), after.contains(b), after.contains((i as i32, 0usize))]
                    after.contains(a) && after.contains(b) && a.0 <= i <= b.0 implies after.contains(
                    (i as i32, 0usize),
                ) by {
                    if i == highest(keys) + 1 {
                        assert((i as i32, 0usize) == top);
                    } else if b == top {
                        if a != top {
                            if inner_swallowed && keys.len() == 1 {
                                assert(a.0 <= highest(keys));
                                let ka = choose|k: int| 0 <= k < keys.len() && keys[k] == a;
                                assert(ka == 0 && klo == 0);
                                assert(false);
                            }
                            assert(kept.contains(keys[khi])) by {
                                if inner_swallowed {
                                    let ka = choose|k: int| 0 <= k < keys.len() && keys[k] == a;
                                    assert(keys[ka].0 > lowest(keys));
                                    assert(keys[khi] != bottom);
                                }
                            }
                            assert(i <= highest(keys));
                        }
                    } else if a == top {
                        assert(b.0 >= a.0);
                        let kb = choose|k: int| 0 <= k < keys.len() && keys[k] == b;
                        assert(keys[kb].0 <= highest(keys));
                    }
                }
            }
        }
    }
}

/// The sum of the zone counts.
pub open spec fn zone_sum(counts: Seq<usize>) -> int
    decreases counts.len(),
{
    if counts.len() == 0 {
        0
    } else {
        zone_sum(counts.drop_last()) + counts.last()
    }
}

/// The number of zones in all blocks together, given the zone count of each.
pub fn total_zones(zones_per_block: &Vec<usize>) -> (r: usize)
    requires
        zone_sum(zones_per_block@) <= usize::MAX,
    ensures
        r == zone_sum(zones_per_block@),
{
    let mut total: usize = 0;
    let mut i: usize = 0;
    while i < zones_per_block.len()
        invariant
            i <= zones_per_block.len(),
            zone_sum(zones_per_block@) <= usize::MAX,
            total == zone_sum(zones_per_block@.take(i as int)),
        decreases zones_per_block.len() - i,
    {
        proof {
            let prefix = zones_per_block@.take(i as int + 1);
            assert(prefix.drop_last() =~= zones_per_block@.take(i as int));
            lemma_zone_sum_prefix(zones_per_block@, i as int + 1);
        }
        total = total + zones_per_block[i];
        i = i + 1;
    }
    assert(zones_per_block@.take(i as int) =~= zones_per_block@);
    total
}

proof fn lemma_zone_sum_prefix(counts: Seq<usize>, n: int)
    requires
        0 <= n <= counts.len(),
    ensures
        zone_sum(counts.take(n)) <= zone_sum(counts),
    decreases counts.len(),
{
    if n < counts.len() {
        assert(counts.drop_last().take(n) =~= counts.take(n));
        lemma_zone_sum_prefix(counts.drop_last(), n);
    } else {
        assert(counts.take(n) =~= counts);
    }
}

} // verus!
