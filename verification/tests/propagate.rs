use stat_system::stat_component::change::Change;
use stat_system::system::propagate_relationship::{
    propagate_leaf_to_root, propagate_root_to_leaf, InheritedFlag, Overflow, PropagateChangeLeafToRoot,
};

fn values(changes: &Vec<Change<i64>>) -> Vec<i64> {
    changes.iter().map(|c| c.0).collect()
}

/// root <- parent <- {child, child2 <- child3}, with changes in tenths.
#[test]
fn test_propagate_leaf_to_root() {
    let root = 0usize;
    let parent = 1usize;
    let child = 2usize;
    let child2 = 3usize;
    let parents = vec![None, Some(root), Some(parent), Some(parent), Some(child2)];
    let mut changes = vec![Change(11i64), Change(22), Change(33), Change(44), Change(55)];
    assert_eq!(propagate_leaf_to_root(&parents, &mut changes), Ok(()));
    assert_eq!(values(&changes), vec![165, 0, 0, 0, 0]);

    changes[child].add_change(66);
    changes[child2].add_change(77);
    assert_eq!(propagate_leaf_to_root(&parents, &mut changes), Ok(()));
    assert_eq!(values(&changes), vec![308, 0, 0, 0, 0]);
}

#[test]
fn leaf_to_root_keeps_roots_apart() {
    // two trees: 0 <- 1 <- 2 and 3 <- 4, and a lone root 5
    let parents = vec![None, Some(0), Some(1), None, Some(3), None];
    let mut changes = vec![Change(1i64), Change(2), Change(3), Change(4), Change(5), Change(6)];
    assert_eq!(propagate_leaf_to_root(&parents, &mut changes), Ok(()));
    assert_eq!(values(&changes), vec![6, 0, 0, 9, 0, 6]);
}

#[test]
fn leaf_to_root_cycle_keeps_what_reaches_it() {
    // 0 and 1 are each other's parent; 2 hangs below 0
    let parents = vec![Some(1), Some(0), Some(0)];
    let mut changes = vec![Change(10i64), Change(20), Change(5)];
    assert_eq!(propagate_leaf_to_root(&parents, &mut changes), Ok(()));
    // 0 waits for 1, which waits for 0: neither reports
    assert_eq!(values(&changes), vec![15, 20, 0]);
}

#[test]
fn leaf_to_root_loses_reports_to_missing_parents() {
    // 1 names a parent that is not an entity
    let parents = vec![None, Some(7), Some(1)];
    let mut changes = vec![Change(1i64), Change(2), Change(3)];
    assert_eq!(propagate_leaf_to_root(&parents, &mut changes), Ok(()));
    assert_eq!(values(&changes), vec![1, 0, 0]);
}

#[test]
fn leaf_to_root_waits_for_all_children() {
    // 0 <- 1 <- {2, 3, 4}, with negative changes too
    let parents = vec![None, Some(0), Some(1), Some(1), Some(1)];
    let mut changes = vec![Change(0i32), Change(-1), Change(2), Change(-3), Change(4)];
    assert_eq!(propagate_leaf_to_root(&parents, &mut changes), Ok(()));
    assert_eq!(changes.iter().map(|c| c.0).collect::<Vec<i32>>(), vec![2, 0, 0, 0, 0]);
}

#[test]
fn change_carried_up_one_step() {
    let mut leaf = Change(4i64);
    let mut up = Change(1i64);
    let carried = PropagateChangeLeafToRoot::from_data(&mut leaf);
    assert_eq!(carried.0, 4);
    assert_eq!(leaf.0, 0);
    carried.apply_to_data(&mut up);
    assert_eq!(up.0, 5);
}

#[test]
fn root_to_leaf_flags() {
    // 0 <- 1 <- 2, 0 <- 3, and 4 <- 5 with 4 a root whose flag is off
    let parents = vec![None, Some(0), Some(1), Some(0), None, Some(4)];
    let begin = vec![true, false, false, false, false, false];
    let data = vec![true, true, false, true, true, true];
    let results = propagate_root_to_leaf::<InheritedFlag>(&parents, &begin, &data);
    let flags: Vec<Option<bool>> = results.iter().map(|r| r.map(|f| f.0)).collect();
    assert_eq!(flags, vec![None, Some(true), Some(false), Some(true), None, Some(false)]);
}

#[test]
fn root_to_leaf_never_reaches_a_cycle() {
    // 1 and 2 are each other's parent; 3 hangs below 1; 0 is a lone root
    let parents = vec![None, Some(2), Some(1), Some(1)];
    let begin = vec![true, true, true, true];
    let data = vec![true, true, true, true];
    let results = propagate_root_to_leaf::<InheritedFlag>(&parents, &begin, &data);
    assert!(results.iter().all(|r| r.is_none()));
}

#[test]
fn leaf_to_root_sums_that_cancel_on_the_way() {
    // root 0 <- 1 <- 2: the sums formed are MAX - MAX and 1 + 0
    let parents = vec![None, Some(0), Some(1)];
    let mut changes = vec![Change(1i64), Change(i64::MAX), Change(-i64::MAX)];
    assert_eq!(propagate_leaf_to_root(&parents, &mut changes), Ok(()));
    assert_eq!(values(&changes), vec![1, 0, 0]);
}

#[test]
fn leaf_to_root_refuses_a_total_that_does_not_fit() {
    let parents = vec![None, Some(0)];
    let mut changes = vec![Change(i64::MAX), Change(1i64)];
    assert_eq!(propagate_leaf_to_root(&parents, &mut changes), Err(Overflow));
    // nothing was changed
    assert_eq!(values(&changes), vec![i64::MAX, 1]);

    let mut small = vec![Change(i32::MIN), Change(-1i32)];
    assert_eq!(propagate_leaf_to_root(&parents, &mut small), Err(Overflow));
    assert_eq!(small.iter().map(|c| c.0).collect::<Vec<i32>>(), vec![i32::MIN, -1]);
}

#[test]
fn leaf_to_root_totals_apart_never_add_up() {
    // two roots, and a report lost to a parent outside the entities
    let parents = vec![None, None, Some(9)];
    let mut changes = vec![Change(i64::MAX), Change(i64::MAX), Change(i64::MAX)];
    assert_eq!(propagate_leaf_to_root(&parents, &mut changes), Ok(()));
    assert_eq!(values(&changes), vec![i64::MAX, i64::MAX, 0]);
}

#[test]
fn leaf_to_root_twice_changes_nothing() {
    let parents = vec![None, Some(0), Some(0), Some(2), None, Some(4)];
    let mut changes = vec![Change(3i64), Change(-4), Change(5), Change(6), Change(7), Change(8)];
    assert_eq!(propagate_leaf_to_root(&parents, &mut changes), Ok(()));
    let once = values(&changes);
    assert_eq!(once, vec![10, 0, 0, 0, 15, 0]);
    assert_eq!(propagate_leaf_to_root(&parents, &mut changes), Ok(()));
    assert_eq!(values(&changes), once);
}
