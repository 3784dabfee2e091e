use ccanvas::channel::Subscription;
use ccanvas::passes::PassItem;
use ccanvas::registry::ConnKind;
use ccanvas::registry::CreateError;
use ccanvas::registry::Focus;
use ccanvas::registry::ParentRef;
use ccanvas::registry::Registry;

#[test]
fn the_fresh_registry_holds_the_root() {
    let r = Registry::new();
    let root = r.get(0).unwrap();
    assert_eq!(root.parent, 0);
    assert!(root.discrim.0.is_empty());
    assert!(root.label.is_empty());
    assert_eq!(r.id_of_label(&Vec::new()), Some(0));
}

#[test]
fn create_links_child_and_label() {
    let mut r = Registry::new();
    assert_eq!(
        r.create(5, ParentRef::ByLabel(Vec::new()), false, b"a".to_vec(), ConnKind::Process),
        Ok(())
    );
    let c = r.get(5).unwrap();
    assert_eq!(c.parent, 0);
    assert_eq!(c.discrim.0, vec![5]);
    assert_eq!(c.label, b"a".to_vec());
    assert_eq!(r.get(0).unwrap().connections, vec![5]);
    assert_eq!(r.id_of_label(&b"a".to_vec()), Some(5));
}

#[test]
fn create_refuses_taken_id_and_label_and_bad_parent() {
    let mut r = Registry::new();
    r.create(5, ParentRef::ById(0), false, b"a".to_vec(), ConnKind::Space).unwrap();
    assert_eq!(
        r.create(5, ParentRef::ById(0), false, b"b".to_vec(), ConnKind::Process),
        Err(CreateError::DuplicateId)
    );
    assert_eq!(
        r.create(6, ParentRef::ById(0), false, b"a".to_vec(), ConnKind::Process),
        Err(CreateError::DuplicateLabel)
    );
    assert_eq!(
        r.create(6, ParentRef::ById(99), false, b"b".to_vec(), ConnKind::Process),
        Err(CreateError::UnknownParent)
    );
    assert_eq!(
        r.create(6, ParentRef::ByLabel(b"zzz".to_vec()), false, b"b".to_vec(), ConnKind::Process),
        Err(CreateError::UnknownParent)
    );
    // a parent label equal to the component's own label names itself
    assert_eq!(
        r.create(6, ParentRef::ByLabel(b"b".to_vec()), false, b"b".to_vec(), ConnKind::Process),
        Err(CreateError::UnknownParent)
    );
    // a process cannot contain children
    r.create(7, ParentRef::ById(5), false, b"p".to_vec(), ConnKind::Process).unwrap();
    assert_eq!(
        r.create(8, ParentRef::ById(7), false, b"q".to_vec(), ConnKind::Process),
        Err(CreateError::UnknownParent)
    );
}

#[test]
fn remove_leaf_purges_every_reference() {
    let mut r = Registry::new();
    r.create(1, ParentRef::ById(0), false, b"s".to_vec(), ConnKind::Space).unwrap();
    r.create(2, ParentRef::ById(1), false, b"p".to_vec(), ConnKind::Process).unwrap();
    r.create(3, ParentRef::ById(1), false, b"q".to_vec(), ConnKind::Process).unwrap();
    // component 2 subscribes in its space, watches a pool entry, and holds focus
    assert_eq!(r.pass_subscribe(1, Subscription::AllKeyPresses, PassItem::new(2, Some(4))), Some(true));
    assert!(r.pool_watch(3, &b"k".to_vec(), 2));
    assert!(r.set_focus(1, Focus::Children(2)));
    assert!(r.remove_leaf(2));
    // its entry, label, child link, focus, pass and watch are all gone
    assert!(r.get(2).is_none());
    assert_eq!(r.id_of_label(&b"p".to_vec()), None);
    assert_eq!(r.get(1).unwrap().connections, vec![3]);
    assert_eq!(r.get(1).unwrap().focus, Focus::This);
    assert_eq!(r.get(1).unwrap().passes.channels.len(), 0);
    assert_eq!(r.get(3).unwrap().pool.map.len(), 0);
}

#[test]
fn remove_leaf_refuses_the_root_and_parents() {
    let mut r = Registry::new();
    r.create(1, ParentRef::ById(0), false, b"s".to_vec(), ConnKind::Space).unwrap();
    r.create(2, ParentRef::ById(1), false, b"p".to_vec(), ConnKind::Process).unwrap();
    assert!(!r.remove_leaf(0));
    // a space with children stays until they have gone
    assert!(!r.remove_leaf(1));
    assert!(r.remove_leaf(2));
    assert!(r.remove_leaf(1));
    assert!(r.get(0).is_some());
}

#[test]
fn write_failure_clears_the_client_handle() {
    let mut r = Registry::new();
    r.create(1, ParentRef::ById(0), true, b"s".to_vec(), ConnKind::Process).unwrap();
    assert!(r.get(1).unwrap().client);
    r.set_client(1, false);
    assert!(!r.get(1).unwrap().client);
}

#[test]
fn descendants_come_deepest_first() {
    let mut r = Registry::new();
    r.create(1, ParentRef::ById(0), false, b"a".to_vec(), ConnKind::Space).unwrap();
    r.create(2, ParentRef::ById(1), false, b"b".to_vec(), ConnKind::Space).unwrap();
    r.create(3, ParentRef::ById(2), false, b"c".to_vec(), ConnKind::Process).unwrap();
    r.create(4, ParentRef::ById(1), false, b"d".to_vec(), ConnKind::Process).unwrap();
    r.create(5, ParentRef::ById(0), false, b"e".to_vec(), ConnKind::Process).unwrap();
    // every component under 1 appears, 1 itself and its siblings do not
    let ds = r.descendants(1);
    assert_eq!(ds.len(), 3);
    assert!(ds.contains(&2) && ds.contains(&3) && ds.contains(&4));
    // depth never increases along the list: 3 is deepest and comes first
    assert_eq!(ds[0], 3);
    // the whole tree under the root, itself excluded
    let all = r.descendants(0);
    assert_eq!(all.len(), 5);
    // a childless component has no descendants
    assert!(r.descendants(5).is_empty());
}

#[test]
fn remove_subtree_purges_survivors_references() {
    let mut r = Registry::new();
    r.create(1, ParentRef::ById(0), false, b"a".to_vec(), ConnKind::Space).unwrap();
    r.create(2, ParentRef::ById(1), false, b"b".to_vec(), ConnKind::Process).unwrap();
    r.create(3, ParentRef::ById(0), false, b"c".to_vec(), ConnKind::Process).unwrap();
    // the doomed process watches a pool entry on a survivor
    r.pool_watch(3, &b"k".to_vec(), 2);
    assert!(r.remove_subtree(1));
    assert!(r.get(1).is_none() && r.get(2).is_none());
    assert!(r.get(3).is_some());
    // the survivor's pool no longer names the departed watcher
    let ws = r.pool_set(3, &b"k".to_vec(), b"v".to_vec()).unwrap();
    assert!(ws.is_empty());
    // labels of the departed are free again
    assert!(r.id_of_label(&b"a".to_vec()).is_none());
    assert!(r.create(9, ParentRef::ById(0), false, b"a".to_vec(), ConnKind::Space).is_ok());
}
