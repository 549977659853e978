use shadow_scene::reorder::ChildInsert;
use shadow_scene::reorder::insert_children_in_order;
use shadow_scene::svec::HandleList;

fn handles(hs: &[u64]) -> HandleList {
    let mut l = HandleList::new();
    for &h in hs {
        l.push(h);
    }
    l
}

#[test]
fn minimal_reorder_touches_only_moved_and_new() {
    // existing backend order [x, y, z], declared order [x, z, y, w]:
    // y is reinserted after the matched x..z prefix and w is appended;
    // x and z receive no command
    let existing = vec![1, 2, 3];
    let target = handles(&[1, 3, 2, 4]);
    let r = insert_children_in_order(&existing, &target);
    assert_eq!(
        r,
        vec![ChildInsert { handle: 2, index: 3 }, ChildInsert { handle: 4, index: 4 }],
    );
}

#[test]
fn identical_orders_need_no_command() {
    let existing = vec![4, 5, 6, 7];
    let target = handles(&[4, 5, 6, 7]);
    let r = insert_children_in_order(&existing, &target);
    assert_eq!(r.len(), 0);
}

#[test]
fn appending_one_child_inserts_it_at_the_end() {
    let existing = vec![1, 2, 3];
    let target = handles(&[1, 2, 3, 9]);
    let r = insert_children_in_order(&existing, &target);
    assert_eq!(r, vec![ChildInsert { handle: 9, index: 3 }]);
}

#[test]
fn in_order_selection_needs_no_command() {
    // a target that drops elements but keeps the relative order is free
    let existing = vec![1, 2, 3, 4];
    let target = handles(&[2, 4]);
    let r = insert_children_in_order(&existing, &target);
    assert_eq!(r.len(), 0);
}

#[test]
fn empty_backend_order_appends_everything() {
    let existing = Vec::new();
    let target = handles(&[5, 6]);
    let r = insert_children_in_order(&existing, &target);
    assert_eq!(
        r,
        vec![ChildInsert { handle: 5, index: 0 }, ChildInsert { handle: 6, index: 1 }],
    );
}

#[test]
fn empty_target_needs_no_command() {
    let existing = vec![1, 2];
    let target = HandleList::new();
    let r = insert_children_in_order(&existing, &target);
    assert_eq!(r.len(), 0);
}
