use kilonova::topology::{
    inner_outer_block_indexes, inner_outer_boundary_indexes, min_max_block_indexes_offset_by,
    stencil_indexes, topology_change, total_zones, TopologyChange,
};

#[test]
fn block_indexes_span_the_existing_shells() {
    let keys = vec![(3, 0), (1, 0), (2, 0)];
    assert_eq!(inner_outer_block_indexes(&keys), ((1, 0), (3, 0)));
    assert_eq!(inner_outer_boundary_indexes(&keys), ((0, 0), (4, 0)));
}

#[test]
fn block_indexes_allow_negative_shells() {
    let keys = vec![(-2, 0), (0, 0), (-1, 0)];
    assert_eq!(min_max_block_indexes_offset_by(&keys, 2), ((-4, 0), (2, 0)));
}

#[test]
fn block_indexes_of_no_blocks_are_an_empty_range() {
    let keys: Vec<(i32, usize)> = vec![];
    assert_eq!(inner_outer_block_indexes(&keys), ((i32::MAX, 0), (i32::MIN, 0)));
    assert_eq!(inner_outer_boundary_indexes(&keys), ((i32::MAX, 0), (i32::MIN, 0)));
}

#[test]
fn block_indexes_of_a_single_block() {
    let keys = vec![(5, 0)];
    assert_eq!(inner_outer_block_indexes(&keys), ((5, 0), (5, 0)));
    assert_eq!(inner_outer_boundary_indexes(&keys), ((4, 0), (6, 0)));
}

#[test]
fn stencil_reads_both_neighbours() {
    assert_eq!(stencil_indexes((7, 0)), ((6, 0), (7, 0), (8, 0)));
    assert_eq!(stencil_indexes((0, 0)), ((-1, 0), (0, 0), (1, 0)));
}

#[test]
fn excision_removes_the_innermost_and_adds_past_the_outermost() {
    let keys = vec![(2, 0), (3, 0), (4, 0)];
    assert_eq!(
        topology_change(&keys, true, true),
        TopologyChange { removed: Some((2, 0)), inserted: Some((5, 0)) }
    );
    assert_eq!(
        topology_change(&keys, false, true),
        TopologyChange { removed: None, inserted: Some((5, 0)) }
    );
    assert_eq!(
        topology_change(&keys, true, false),
        TopologyChange { removed: Some((2, 0)), inserted: None }
    );
    assert_eq!(
        topology_change(&keys, false, false),
        TopologyChange { removed: None, inserted: None }
    );
}

#[test]
fn topology_change_of_no_blocks_is_none() {
    let keys: Vec<(i32, usize)> = vec![];
    assert_eq!(
        topology_change(&keys, true, true),
        TopologyChange { removed: None, inserted: None }
    );
}

#[test]
fn block_count_does_not_drop_when_both_surfaces_move() {
    let mut keys = vec![(0, 0), (1, 0), (2, 0)];
    for _ in 0..5 {
        let before = keys.len();
        let change = topology_change(&keys, true, true);
        let (inner, outer) = inner_outer_block_indexes(&keys);
        assert_eq!(change.removed, Some(inner));
        assert_eq!(change.inserted, Some((outer.0 + 1, 0)));
        keys.retain(|k| Some(*k) != change.removed);
        keys.push(change.inserted.unwrap());
        assert!(keys.len() >= before);
    }
    let (inner, outer) = inner_outer_block_indexes(&keys);
    assert_eq!((inner, outer), ((5, 0), (7, 0)));
}

#[test]
fn inner_block_count_drops_by_one_per_crossing() {
    let mut keys = vec![(0, 0), (1, 0), (2, 0), (3, 0)];
    let change = topology_change(&keys, true, false);
    keys.retain(|k| Some(*k) != change.removed);
    assert_eq!(keys.len(), 3);
    assert_eq!(inner_outer_block_indexes(&keys).0, (1, 0));
}

#[test]
fn total_zones_sums_the_blocks() {
    assert_eq!(total_zones(&vec![]), 0);
    assert_eq!(total_zones(&vec![64 * 16, 64 * 16, 64 * 16]), 3072);
    assert_eq!(total_zones(&vec![usize::MAX - 1, 1]), usize::MAX);
}
