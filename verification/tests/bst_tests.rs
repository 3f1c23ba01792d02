use arboretum::Bst;

#[test]
fn bst_does_contain_item_added_to_it() {
    let bst = &mut Bst::empty();

    bst.insert(5);

    assert_eq!(true, bst.contains(5));
}

#[test]
fn bst_does_not_contain_item_removed_from_it() {
    let bst = &mut Bst::empty();

    bst.insert(5);

    assert_eq!(true, bst.contains(5));

    bst.remove(5);

    assert_eq!(false, bst.contains(5));
}

#[test]
fn bst_contains_first_of_several_inserted_values() {
    let bst = &mut Bst::empty();

    bst.insert(10);
    bst.insert(20);
    bst.insert(30);

    assert_eq!(true, bst.contains(10));
    assert_eq!(true, bst.contains(20));
    assert_eq!(true, bst.contains(30));
}

#[test]
fn bst_does_not_contain_values_never_inserted() {
    let bst = &mut Bst::<u64>::empty();

    assert_eq!(false, bst.contains(7));

    bst.insert(10);
    bst.insert(20);

    assert_eq!(false, bst.contains(15));
    assert_eq!(false, bst.contains(0));
}

#[test]
fn bst_lists_values_in_ascending_order() {
    let bst = &mut Bst::empty();

    for v in [50u64, 30, 70, 20, 40, 60, 80] {
        bst.insert(v);
    }

    assert_eq!(vec![20u64, 30, 40, 50, 60, 70, 80], bst.in_order());
}

#[test]
fn bst_removes_root_with_two_children_via_successor() {
    let bst = &mut Bst::empty();

    for v in [50u64, 30, 70, 20, 40, 60, 80] {
        bst.insert(v);
    }

    bst.remove(50);

    assert_eq!(false, bst.contains(50));
    assert_eq!(vec![20u64, 30, 40, 60, 70, 80], bst.in_order());
}

#[test]
fn bst_removing_absent_value_changes_nothing() {
    let bst = &mut Bst::empty();

    for v in [50u64, 30, 70, 20, 40, 60, 80] {
        bst.insert(v);
    }
    bst.remove(50);

    bst.remove(999);

    assert_eq!(vec![20u64, 30, 40, 60, 70, 80], bst.in_order());
}

#[test]
fn bst_removing_a_leaf_keeps_every_other_value() {
    let bst = &mut Bst::empty();

    for v in [50u64, 30, 70, 20, 40, 60, 80] {
        bst.insert(v);
    }

    bst.remove(20);

    assert_eq!(vec![30u64, 40, 50, 60, 70, 80], bst.in_order());
}

#[test]
fn bst_removing_node_with_one_child_relinks_the_child() {
    let bst = &mut Bst::empty();

    bst.insert(50);
    bst.insert(30);
    bst.insert(20);

    bst.remove(30);

    assert_eq!(vec![20u64, 50], bst.in_order());
}

#[test]
fn bst_keeps_duplicates_and_removes_one_at_a_time() {
    let bst = &mut Bst::empty();

    bst.insert(5);
    bst.insert(5);

    assert_eq!(vec![5u64, 5], bst.in_order());

    bst.remove(5);

    assert_eq!(true, bst.contains(5));
    assert_eq!(vec![5u64], bst.in_order());

    bst.remove(5);

    assert_eq!(false, bst.contains(5));
    assert_eq!(Vec::<u64>::new(), bst.in_order());
}

#[test]
fn bst_empty_tree_reports_nothing_and_ignores_removal() {
    let bst = &mut Bst::<u64>::empty();

    assert_eq!(false, bst.contains(1));
    assert_eq!(Vec::<u64>::new(), bst.in_order());

    bst.remove(1);

    assert_eq!(Vec::<u64>::new(), bst.in_order());
}
