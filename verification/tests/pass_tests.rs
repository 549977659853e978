use shadow_scene::commands::Command;
use shadow_scene::store::Store;

/// Run one flat pass declaring `uids` as leaves; returns the new store,
/// the emitted commands, and the handle confirmed for each uid.
fn flat_pass(store: Store, uids: &[u64]) -> (Store, Vec<Command>, Vec<u64>) {
    let mut pass = store.open_pass();
    let mut handles = Vec::new();
    for &u in uids {
        handles.push(pass.declare(u));
        pass.close();
    }
    let (store, cmds) = pass.finish();
    (store, cmds, handles)
}

fn is_create(c: &Command, h: u64) -> bool {
    matches!(c, Command::Create { handle, .. } if *handle == h)
}

fn is_remove(c: &Command, h: u64) -> bool {
    matches!(c, Command::Remove { handle } if *handle == h)
}

#[test]
fn empty_declaration_over_empty_store_does_nothing() {
    let store = Store::new();
    let pass = store.open_pass();
    let (store, cmds) = pass.finish();
    assert_eq!(cmds.len(), 0);
    assert_eq!(store.size(), 1);
    let sentinel = store.record(0);
    assert_eq!((sentinel.span, sentinel.arity), (1, 0));
}

#[test]
fn first_pass_creates_all() {
    let store = Store::new();
    let (store, cmds, handles) = flat_pass(store, &[10, 20, 30]);
    assert_eq!(handles, vec![1, 2, 3]);
    assert_eq!(cmds.len(), 3);
    assert!(is_create(&cmds[0], 1));
    assert!(is_create(&cmds[1], 2));
    assert!(is_create(&cmds[2], 3));
    // every root-level creation plays its own entry animation
    for c in &cmds {
        assert!(matches!(c, Command::Create { entry: true, .. }));
    }
    assert_eq!(store.size(), 4);
}

#[test]
fn second_pass_unchanged_emits_nothing() {
    let store = Store::new();
    let (store, _, first) = flat_pass(store, &[10, 20, 30]);
    let (store, cmds, second) = flat_pass(store, &[10, 20, 30]);
    assert_eq!(cmds.len(), 0);
    assert_eq!(first, second);
    assert_eq!(store.size(), 4);
}

#[test]
fn append_creates_only_the_new_child() {
    let store = Store::new();
    let (store, _, first) = flat_pass(store, &[10, 20, 30]);
    let (store, cmds, second) = flat_pass(store, &[10, 20, 30, 40]);
    assert_eq!(cmds.len(), 1);
    assert!(is_create(&cmds[0], 4));
    assert_eq!(&second[..3], &first[..]);
    assert_eq!(store.size(), 5);
}

#[test]
fn mid_sequence_removal_removes_only_the_gone_child() {
    let store = Store::new();
    let (store, _, first) = flat_pass(store, &[10, 20, 30]);
    let (store, cmds, second) = flat_pass(store, &[10, 30]);
    assert_eq!(cmds.len(), 1);
    assert!(is_remove(&cmds[0], first[1]));
    assert_eq!(second, vec![first[0], first[2]]);
    assert_eq!(store.size(), 3);
}

#[test]
fn backward_move_degrades_to_delete_and_insert() {
    let store = Store::new();
    let (store, _, first) = flat_pass(store, &[10, 20]);
    let (store, cmds, second) = flat_pass(store, &[20, 10]);
    assert_eq!(cmds.len(), 2);
    // the earlier sibling is consumed by the scan and removed ...
    assert!(is_remove(&cmds[0], first[0]));
    // ... and recreated as a brand new node: its identity is lost
    assert!(is_create(&cmds[1], 3));
    assert_eq!(second[0], first[1]);
    assert_eq!(second[1], 3);
    assert_ne!(second[1], first[0]);
    assert_eq!(store.size(), 3);
}

#[test]
fn nested_tree_records_span_and_arity() {
    let store = Store::new();
    let mut pass = store.open_pass();
    pass.declare(1);
    {
        pass.declare(11);
        pass.close();
        pass.declare(12);
        pass.close();
    }
    pass.close();
    assert_eq!(pass.command_count(), 4);
    assert_eq!(pass.depth(), 1);
    pass.declare(2);
    pass.close();
    let (store, cmds) = pass.finish();
    // three creates under node 1's level, its reorder on scope exit, then
    // the sibling's create
    assert_eq!(cmds.len(), 5);
    assert_eq!(store.size(), 5);
    let sentinel = store.record(0);
    assert_eq!(sentinel.span, 5);
    assert_eq!(sentinel.arity, 2);
    let n1 = store.record(1);
    assert_eq!((n1.uid, n1.span, n1.arity), (1, 3, 2));
    assert_eq!(store.record(2).uid, 11);
    assert_eq!(store.record(3).uid, 12);
    let n2 = store.record(4);
    assert_eq!((n2.uid, n2.span, n2.arity), (2, 1, 0));
    // only the outermost newly created ancestor animates its entry
    assert!(matches!(cmds[0], Command::Create { entry: true, .. }));
    assert!(matches!(cmds[1], Command::Create { entry: false, .. }));
    assert!(matches!(cmds[2], Command::Create { entry: false, .. }));
    match &cmds[3] {
        Command::Reorder { parent, order } => {
            assert_eq!(*parent, n1.handle);
            assert_eq!(order.len(), 2);
            assert_eq!(order.get(0), store.record(2).handle);
            assert_eq!(order.get(1), store.record(3).handle);
        },
        _ => panic!("expected a reorder command"),
    }
    assert!(matches!(cmds[4], Command::Create { entry: true, .. }));
}

#[test]
fn nested_tree_second_pass_emits_nothing() {
    let declare_tree = |store: Store| {
        let mut pass = store.open_pass();
        pass.declare(1);
        {
            pass.declare(11);
            pass.close();
            pass.declare(12);
            pass.close();
        }
        pass.close();
        pass.declare(2);
        pass.close();
        pass.finish()
    };
    let store = Store::new();
    let (store, _) = declare_tree(store);
    let (store, cmds) = declare_tree(store);
    assert_eq!(cmds.len(), 0);
    assert_eq!(store.size(), 5);
}

#[test]
fn removing_a_subtree_removes_only_its_root() {
    let store = Store::new();
    let mut pass = store.open_pass();
    pass.declare(1);
    {
        pass.declare(11);
        pass.close();
        pass.declare(12);
        pass.close();
    }
    pass.close();
    pass.declare(2);
    pass.close();
    let (store, _) = pass.finish();
    let root_handle = store.record(1).handle;
    // next pass drops the whole subtree of node 1
    let (store, cmds, _) = flat_pass(store, &[2]);
    // one remove for the subtree root; the backend destroys it recursively
    assert_eq!(cmds.len(), 1);
    assert!(matches!(cmds[0], Command::Remove { handle } if handle == root_handle));
    assert_eq!(store.size(), 2);
}

#[test]
fn duplicate_uid_reinserts_a_second_physical_node() {
    let store = Store::new();
    let (store, cmds, handles) = flat_pass(store, &[7, 7]);
    assert_eq!(cmds.len(), 2);
    assert_ne!(handles[0], handles[1]);
    // the duplicate stays stable on the next pass: first match wins
    let (_, cmds, second) = flat_pass(store, &[7, 7]);
    assert_eq!(cmds.len(), 0);
    assert_eq!(second, handles);
}

#[test]
fn dynamic_declaration_reissues_content_only_when_changed() {
    let store = Store::new();
    let (store, _, handles) = flat_pass(store, &[5]);
    let mut pass = store.open_pass();
    pass.declare_dynamic(5, false);
    pass.close();
    let (store, cmds) = pass.finish();
    assert_eq!(cmds.len(), 0);
    let mut pass = store.open_pass();
    pass.declare_dynamic(5, true);
    pass.close();
    let (_, cmds) = pass.finish();
    assert_eq!(cmds.len(), 1);
    assert!(matches!(cmds[0], Command::Update { handle } if handle == handles[0]));
}

#[test]
fn reorder_command_carries_the_final_child_order() {
    // children of a nested node: [a, b, c] then [a, c] triggers a reorder
    // command for that level, carrying the final order
    let store = Store::new();
    let mut pass = store.open_pass();
    pass.declare(1);
    {
        pass.declare(11);
        pass.close();
        pass.declare(12);
        pass.close();
        pass.declare(13);
        pass.close();
    }
    pass.close();
    let (store, _) = pass.finish();
    let parent_handle = store.record(1).handle;
    let (a_h, b_h, c_h) = (
        store.record(2).handle,
        store.record(3).handle,
        store.record(4).handle,
    );
    let mut pass = store.open_pass();
    pass.declare(1);
    {
        pass.declare(11);
        pass.close();
        pass.declare(13);
        pass.close();
    }
    pass.close();
    let (_, cmds) = pass.finish();
    assert_eq!(cmds.len(), 2);
    assert!(matches!(cmds[0], Command::Remove { handle } if handle == b_h));
    match &cmds[1] {
        Command::Reorder { parent, order } => {
            assert_eq!(*parent, parent_handle);
            assert_eq!(order.len(), 2);
            assert_eq!(order.get(0), a_h);
            assert_eq!(order.get(1), c_h);
            // the surviving children are an in-order selection of the
            // backend's order, so reinsertion emits no command at all
            let existing = vec![a_h, b_h, c_h];
            let inserts = shadow_scene::reorder::insert_children_in_order(&existing, order);
            assert_eq!(inserts.len(), 0);
        },
        _ => panic!("expected a reorder command"),
    }
}

#[test]
fn end_to_end_list_scenario() {
    let base: u64 = 0xDEAD_BEEF;
    let keys = |n: usize| -> Vec<u64> { (0..n as u64).map(|i| base ^ i).collect() };
    let store = Store::new();
    let (store, cmds, h5) = flat_pass(store, &keys(5));
    assert_eq!(store.size(), 6);
    assert_eq!(cmds.len(), 5);

    let (store, cmds, h3) = flat_pass(store, &keys(3));
    assert_eq!(store.size(), 4);
    // indices that persist keep their handle
    assert_eq!(h3, h5[..3].to_vec());
    // only the delta is destroyed
    assert_eq!(cmds.len(), 2);
    assert!(cmds.iter().all(|c| matches!(c, Command::Remove { .. })));

    let (store, cmds, _) = flat_pass(store, &keys(0));
    assert_eq!(store.size(), 1);
    assert_eq!(cmds.len(), 3);
    assert!(cmds.iter().all(|c| matches!(c, Command::Remove { .. })));

    let (store, cmds, h2) = flat_pass(store, &keys(2));
    assert_eq!(store.size(), 3);
    assert_eq!(cmds.len(), 2);
    assert!(cmds.iter().all(|c| matches!(c, Command::Create { .. })));
    // everything was destroyed in between: these are new nodes
    assert!(h2.iter().all(|h| !h5.contains(h)));
    drop(store);
}
