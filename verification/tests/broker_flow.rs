use ccanvas::broker::Effect;
use ccanvas::broker::FocusAction;
use ccanvas::broker::focus_at;
use ccanvas::broker::handle_request;
use ccanvas::broker::spawn_done;
use ccanvas::discrim::Discriminator;
use ccanvas::event::EventSerde;
use ccanvas::registry::ConnKind;
use ccanvas::registry::Focus;
use ccanvas::registry::ParentRef;
use ccanvas::registry::Registry;
use ccanvas::request::RequestContent;
use ccanvas::request::WatchInternal;
use ccanvas::response::ResponseContent;
use ccanvas::response::ResponseError;
use ccanvas::response::ResponseSuccess;

fn setup() -> (Registry, Discriminator) {
    let r = Registry::new();
    (r, Discriminator(vec![]))
}

fn ok(content: &Option<ResponseContent>) -> &ResponseSuccess {
    match content {
        Some(ResponseContent::Success { content }) => content,
        other => panic!("expected a success, got {:?}", other.is_some()),
    }
}

#[test]
fn set_entry_then_get_entry_yields_the_value() {
    let (mut r, mut focused) = setup();
    let (resp, effects) = handle_request(
        &mut r,
        0,
        RequestContent::SetEntry { label: b"k".to_vec(), value: b"1".to_vec() },
        100,
        &mut focused,
    );
    assert!(matches!(ok(&resp), ResponseSuccess::ValueSet));
    assert!(effects.is_empty());
    let (resp2, _) = handle_request(
        &mut r,
        0,
        RequestContent::GetEntry { label: b"k".to_vec() },
        100,
        &mut focused,
    );
    match ok(&resp2) {
        ResponseSuccess::Value { value } => assert_eq!(value, &b"1".to_vec()),
        _ => panic!("expected the value back"),
    }
}

#[test]
fn remove_entry_then_get_entry_is_entry_not_found() {
    let (mut r, mut focused) = setup();
    handle_request(
        &mut r,
        0,
        RequestContent::SetEntry { label: b"k".to_vec(), value: b"1".to_vec() },
        100,
        &mut focused,
    );
    let (resp, _) = handle_request(
        &mut r,
        0,
        RequestContent::RemoveEntry { label: b"k".to_vec() },
        100,
        &mut focused,
    );
    assert!(matches!(ok(&resp), ResponseSuccess::RemovedValue));
    let (resp2, _) = handle_request(
        &mut r,
        0,
        RequestContent::GetEntry { label: b"k".to_vec() },
        100,
        &mut focused,
    );
    assert!(matches!(
        resp2,
        Some(ResponseContent::Error { content: ResponseError::EntryNotFound })
    ));
}

#[test]
fn pool_watch_notifies_and_drops_a_dead_sender() {
    // component A (id 2) watches "k" on component B (id 1)
    let (mut r, mut focused) = setup();
    r.create(1, ParentRef::ById(0), false, b"b".to_vec(), ConnKind::Process).unwrap();
    r.create(2, ParentRef::ById(0), false, b"a".to_vec(), ConnKind::Process).unwrap();
    let (resp, _) = handle_request(
        &mut r,
        1,
        RequestContent::WatchInternal(WatchInternal {
            label: b"k".to_vec(),
            watcher: Discriminator(vec![2]),
        }),
        100,
        &mut focused,
    );
    assert!(matches!(ok(&resp), ResponseSuccess::Watching));
    // B sets "k" to 1: A is told ValueUpdated
    let (resp2, effects) = handle_request(
        &mut r,
        1,
        RequestContent::SetEntry { label: b"k".to_vec(), value: b"1".to_vec() },
        100,
        &mut focused,
    );
    assert!(matches!(ok(&resp2), ResponseSuccess::ValueSet));
    assert_eq!(effects.len(), 1);
    match &effects[0] {
        Effect::NotifyWatcher { watcher, event } => {
            assert_eq!(*watcher, 2);
            match event {
                EventSerde::ValueUpdated { label, new, discrim } => {
                    assert_eq!(label, &b"k".to_vec());
                    assert_eq!(new, &b"1".to_vec());
                    assert_eq!(discrim.0, vec![1]);
                },
                _ => panic!("expected a value update"),
            }
        },
        _ => panic!("expected a watcher notification"),
    }
    // A's socket proved dead during that send: prune, then set again
    assert!(r.pool_prune(1, &b"k".to_vec(), &vec![2]));
    let (_, effects2) = handle_request(
        &mut r,
        1,
        RequestContent::SetEntry { label: b"k".to_vec(), value: b"2".to_vec() },
        100,
        &mut focused,
    );
    assert!(effects2.is_empty());
    assert_eq!(r.get(1).unwrap().pool.map[0].1.listener.len(), 0);
}

#[test]
fn an_unknown_watcher_cannot_watch() {
    let (mut r, mut focused) = setup();
    let (resp, _) = handle_request(
        &mut r,
        0,
        RequestContent::WatchInternal(WatchInternal {
            label: b"k".to_vec(),
            watcher: Discriminator(vec![77]),
        }),
        100,
        &mut focused,
    );
    assert!(matches!(
        resp,
        Some(ResponseContent::Error { content: ResponseError::ComponentNotFound })
    ));
}

#[test]
fn focus_switch_unfocuses_the_old_child_and_focuses_the_new() {
    // space M with children c1, c2; focus at c1; a focus request targets c2
    let (mut r, mut focused) = setup();
    r.create(1, ParentRef::ById(0), false, b"m".to_vec(), ConnKind::Space).unwrap();
    r.create(2, ParentRef::ById(1), false, b"c1".to_vec(), ConnKind::Space).unwrap();
    r.create(3, ParentRef::ById(1), false, b"c2".to_vec(), ConnKind::Space).unwrap();
    r.set_focus(1, Focus::Children(2));
    let target = Discriminator(vec![1, 3]);
    let actions = focus_at(&mut r, 1, &target);
    assert_eq!(actions.len(), 3);
    assert!(matches!(actions[0], FocusAction::Unfocus { to: 2 }));
    assert!(matches!(actions[1], FocusAction::ForwardFocusAt { to: 3 }));
    assert!(matches!(actions[2], FocusAction::GainFocus { to: 3 }));
    assert_eq!(r.get(1).unwrap().focus, Focus::Children(3));
    // the request reaches c2 itself: focus settles there and FOCUSED moves
    let (resp, effects) =
        handle_request(&mut r, 3, RequestContent::FocusAt, 100, &mut focused);
    assert!(matches!(ok(&resp), ResponseSuccess::FocusChanged));
    assert!(effects.is_empty());
    assert_eq!(focused.0, vec![1, 3]);
}

#[test]
fn a_space_already_turned_toward_the_target_forwards_unchanged() {
    let (mut r, _) = setup();
    r.create(1, ParentRef::ById(0), false, b"m".to_vec(), ConnKind::Space).unwrap();
    r.create(2, ParentRef::ById(1), false, b"c1".to_vec(), ConnKind::Space).unwrap();
    r.set_focus(1, Focus::Children(2));
    let actions = focus_at(&mut r, 1, &Discriminator(vec![1, 2]));
    assert_eq!(actions.len(), 1);
    assert!(matches!(actions[0], FocusAction::ForwardFocusAt { to: 2 }));
    assert_eq!(r.get(1).unwrap().focus, Focus::Children(2));
}

#[test]
fn subscribe_and_unsubscribe_through_requests() {
    let (mut r, mut focused) = setup();
    r.create(1, ParentRef::ById(0), false, b"p".to_vec(), ConnKind::Process).unwrap();
    let (resp, _) = handle_request(
        &mut r,
        0,
        RequestContent::Subscribe {
            channel: ccanvas::channel::Subscription::AllKeyPresses,
            priority: Some(4),
            component: Some(Discriminator(vec![1])),
        },
        100,
        &mut focused,
    );
    assert!(matches!(ok(&resp), ResponseSuccess::SubscribeAdded));
    let (resp2, _) = handle_request(
        &mut r,
        0,
        RequestContent::Unsubscribe {
            channel: ccanvas::channel::Subscription::AllKeyPresses,
            component: Some(Discriminator(vec![1])),
        },
        100,
        &mut focused,
    );
    assert!(matches!(ok(&resp2), ResponseSuccess::SubscribeRemoved));
    assert_eq!(r.get(0).unwrap().passes.channels.len(), 0);
    // a subscriber that is no child is refused
    let (resp3, _) = handle_request(
        &mut r,
        0,
        RequestContent::Subscribe {
            channel: ccanvas::channel::Subscription::AllKeyPresses,
            priority: Some(4),
            component: Some(Discriminator(vec![42])),
        },
        100,
        &mut focused,
    );
    assert!(matches!(
        resp3,
        Some(ResponseContent::Error { content: ResponseError::ComponentNotFound })
    ));
}

#[test]
fn spawn_defers_and_settles_with_the_outcome() {
    let (mut r, mut focused) = setup();
    let (resp, effects) = handle_request(
        &mut r,
        0,
        RequestContent::Spawn {
            command: b"prog".to_vec(),
            args: vec![b"-x".to_vec()],
            label: b"child".to_vec(),
        },
        41,
        &mut focused,
    );
    assert!(resp.is_none());
    assert_eq!(effects.len(), 1);
    match &effects[0] {
        Effect::SpawnProcess { command, label, parent, fresh_id, .. } => {
            assert_eq!(command, &b"prog".to_vec());
            assert_eq!(label, &b"child".to_vec());
            assert_eq!(*parent, 0);
            assert_eq!(*fresh_id, 41);
        },
        _ => panic!("expected a spawn effect"),
    }
    // the process failed to start
    let failed = spawn_done(&mut r, 0, 41, b"child".to_vec(), false);
    assert!(matches!(
        failed,
        ResponseContent::Error { content: ResponseError::SpawnFailed }
    ));
    assert!(r.get(41).is_none());
    // it started: the component registers under the allocated id
    let done = spawn_done(&mut r, 0, 41, b"child".to_vec(), true);
    match done {
        ResponseContent::Success { content: ResponseSuccess::Spawned { discrim } } => {
            assert_eq!(discrim.0, vec![41]);
        },
        _ => panic!("expected a spawned success"),
    }
    assert!(r.get(41).is_some());
}

#[test]
fn drop_removes_a_child_component() {
    let (mut r, mut focused) = setup();
    r.create(1, ParentRef::ById(0), false, b"p".to_vec(), ConnKind::Process).unwrap();
    let (resp, _) = handle_request(
        &mut r,
        0,
        RequestContent::Drop { discrim: Some(Discriminator(vec![1])) },
        100,
        &mut focused,
    );
    assert!(matches!(ok(&resp), ResponseSuccess::Dropped));
    assert!(r.get(1).is_none());
}

#[test]
fn new_space_registers_a_space_under_its_parent() {
    let (mut r, mut focused) = setup();
    let (resp, _) = handle_request(
        &mut r,
        0,
        RequestContent::NewSpace { label: b"s".to_vec() },
        9,
        &mut focused,
    );
    match ok(&resp) {
        ResponseSuccess::SpaceCreated { discrim } => assert_eq!(discrim.0, vec![9]),
        _ => panic!("expected a created space"),
    }
    assert_eq!(r.get(9).unwrap().kind, ConnKind::Space);
}

#[test]
fn drop_of_a_component_that_is_no_direct_child_is_refused() {
    let (mut r, mut focused) = setup();
    r.create(1, ParentRef::ById(0), false, b"s".to_vec(), ConnKind::Space).unwrap();
    r.create(2, ParentRef::ById(1), false, b"p".to_vec(), ConnKind::Process).unwrap();
    // component 2 is a grandchild of the master, not a direct child
    let (resp, _) = handle_request(
        &mut r,
        0,
        RequestContent::Drop { discrim: Some(Discriminator(vec![1, 2])) },
        100,
        &mut focused,
    );
    assert!(matches!(
        resp,
        Some(ResponseContent::Error { content: ResponseError::ComponentNotFound })
    ));
    assert!(r.get(2).is_some());
}

#[test]
fn focus_at_self_unfocuses_the_old_child_and_moves_the_global_focus() {
    let (mut r, mut focused) = setup();
    r.create(1, ParentRef::ById(0), false, b"m".to_vec(), ConnKind::Space).unwrap();
    r.create(2, ParentRef::ById(1), false, b"c1".to_vec(), ConnKind::Space).unwrap();
    r.set_focus(1, Focus::Children(2));
    let (resp, effects) =
        handle_request(&mut r, 1, RequestContent::FocusAt, 100, &mut focused);
    assert!(matches!(ok(&resp), ResponseSuccess::FocusChanged));
    assert_eq!(effects.len(), 1);
    assert!(matches!(effects[0], Effect::DeliverUnfocus { to: 2 }));
    assert_eq!(r.get(1).unwrap().focus, Focus::This);
    assert_eq!(focused.0, vec![1]);
}

#[test]
fn drop_of_a_populated_space_removes_its_whole_subtree() {
    let (mut r, mut focused) = setup();
    r.create(1, ParentRef::ById(0), false, b"s".to_vec(), ConnKind::Space).unwrap();
    r.create(2, ParentRef::ById(1), false, b"p".to_vec(), ConnKind::Process).unwrap();
    r.create(3, ParentRef::ById(0), false, b"q".to_vec(), ConnKind::Process).unwrap();
    // component 3 subscribes at the master to one of the doomed, and
    // watches a pool entry of the other
    r.pass_subscribe(0, ccanvas::channel::Subscription::Everything, ccanvas::passes::PassItem::new(1, Some(2)));
    r.pool_watch(3, &b"k".to_vec(), 2);
    let (resp, _) = handle_request(
        &mut r,
        0,
        RequestContent::Drop { discrim: Some(Discriminator(vec![1])) },
        100,
        &mut focused,
    );
    assert!(matches!(ok(&resp), ResponseSuccess::Dropped));
    // the space and its child are gone, labels and references with them
    assert!(r.get(1).is_none());
    assert!(r.get(2).is_none());
    assert!(r.id_of_label(&b"s".to_vec()).is_none());
    assert!(r.id_of_label(&b"p".to_vec()).is_none());
    assert_eq!(r.get(0).unwrap().connections, vec![3]);
    assert_eq!(r.get(0).unwrap().passes.channels.len(), 0);
    assert_eq!(r.get(3).unwrap().pool.map.len(), 0);
}
