use ccanvas::broker::route_request;
use ccanvas::broker::RouteDecision;
use ccanvas::channel::Subscription;
use ccanvas::discrim::Discriminator;
use ccanvas::passes::PassItem;
use ccanvas::processor::handle_event;
use ccanvas::processor::ProcessorEvent;
use ccanvas::registry::ConnKind;
use ccanvas::registry::ParentRef;
use ccanvas::registry::Registry;
use ccanvas::wire::encode_packet;
use ccanvas::wire::ConnPacket;

fn setup() -> Registry {
    let mut r = Registry::new();
    r.create(1, ParentRef::ById(0), false, b"m".to_vec(), ConnKind::Space).unwrap();
    r.create(2, ParentRef::ById(1), false, b"sub".to_vec(), ConnKind::Space).unwrap();
    r.create(3, ParentRef::ById(1), false, b"proc".to_vec(), ConnKind::Process).unwrap();
    r
}

#[test]
fn a_request_into_a_subspace_is_forwarded() {
    let r = setup();
    let got = route_request(&r, 1, &Discriminator(vec![1, 2]), None);
    assert!(matches!(got, RouteDecision::Forward { id: 2 }));
    // deeper targets still name the same next hop
    let deeper = route_request(&r, 1, &Discriminator(vec![1, 2, 9]), None);
    assert!(matches!(deeper, RouteDecision::Forward { id: 2 }));
}

#[test]
fn a_request_to_a_process_is_delivered() {
    let r = setup();
    let got = route_request(&r, 1, &Discriminator(vec![1, 3]), None);
    assert!(matches!(got, RouteDecision::DeliverTo { id: 3 }));
}

#[test]
fn an_event_request_needs_a_subscription() {
    let mut r = setup();
    let chans = vec![Subscription::AllMessages];
    // the process subscribes to nothing: the sender is owed Undelivered
    let before = route_request(&r, 1, &Discriminator(vec![1, 3]), Some(&chans));
    assert!(matches!(before, RouteDecision::Undelivered { id: 3 }));
    // once subscribed on a matched channel, it is delivered
    r.pass_subscribe(1, Subscription::AllMessages, PassItem::new(3, Some(5)));
    let after = route_request(&r, 1, &Discriminator(vec![1, 3]), Some(&chans));
    assert!(matches!(after, RouteDecision::DeliverTo { id: 3 }));
}

#[test]
fn a_target_below_no_child_is_not_found() {
    let r = setup();
    assert!(matches!(
        route_request(&r, 1, &Discriminator(vec![1, 9]), None),
        RouteDecision::NotFound
    ));
    assert!(matches!(
        route_request(&r, 1, &Discriminator(vec![1]), None),
        RouteDecision::NotFound
    ));
    assert!(matches!(
        route_request(&r, 1, &Discriminator(vec![2, 2]), None),
        RouteDecision::NotFound
    ));
}

#[test]
fn a_dead_client_handle_clears_the_flag() {
    let mut r = Registry::new();
    r.create(5, ParentRef::ById(0), true, b"a".to_vec(), ConnKind::Process).unwrap();
    assert!(r.get(5).unwrap().client);
    let step = handle_event(&mut r, ProcessorEvent::ClientGone { token: 5 });
    assert!(!step.terminate);
    assert!(step.actions.is_empty());
    assert!(!r.get(5).unwrap().client);
}

#[test]
fn a_terminate_frame_through_the_event_loop_stops_the_broker() {
    let mut r = Registry::new();
    let data = encode_packet(&ConnPacket::Terminate);
    let step = handle_event(&mut r, ProcessorEvent::Packet { token: 0, data });
    assert!(step.terminate);
    assert_eq!(step.actions.len(), 1);
}

#[test]
fn a_suppressed_process_is_owed_undelivered() {
    let mut r = setup();
    let chans = vec![Subscription::AllMessages];
    r.pass_subscribe(1, Subscription::AllMessages, PassItem::new(3, Some(5)));
    // a suppressor at the subscriber's priority blocks the delivery
    r.suppress(1, Subscription::AllMessages, 5).unwrap();
    let got = route_request(&r, 1, &Discriminator(vec![1, 3]), Some(&chans));
    assert!(matches!(got, RouteDecision::Undelivered { id: 3 }));
    // one strictly below it does not
    let mut r2 = setup();
    r2.pass_subscribe(1, Subscription::AllMessages, PassItem::new(3, Some(5)));
    r2.suppress(1, Subscription::AllMessages, 4).unwrap();
    let got2 = route_request(&r2, 1, &Discriminator(vec![1, 3]), Some(&chans));
    assert!(matches!(got2, RouteDecision::DeliverTo { id: 3 }));
}

#[test]
fn a_disconnect_of_a_space_takes_its_subtree_along() {
    let mut r = setup();
    // the whole subtree under the space leaves, and only it
    let step = handle_event(&mut r, ProcessorEvent::Disconnect { token: 1 });
    assert!(!step.terminate);
    assert!(r.get(1).is_none());
    assert!(r.get(2).is_none());
    assert!(r.get(3).is_none());
    assert!(r.get(0).is_some());
    assert_eq!(r.get(0).unwrap().connections.len(), 0);
    assert!(r.id_of_label(&b"m".to_vec()).is_none());
    assert!(r.id_of_label(&b"sub".to_vec()).is_none());
}

#[test]
fn a_dead_watcher_is_pruned_from_every_pool() {
    let mut r = Registry::new();
    r.create(1, ParentRef::ById(0), false, b"b".to_vec(), ConnKind::Process).unwrap();
    r.create(2, ParentRef::ById(0), true, b"a".to_vec(), ConnKind::Process).unwrap();
    // component 2 watches entries on two owners
    r.pool_watch(1, &b"k".to_vec(), 2);
    r.pool_watch(0, &b"other".to_vec(), 2);
    // its client handle dies: both watches go, and 1's next set notifies nobody
    let step = handle_event(&mut r, ProcessorEvent::ClientGone { token: 2 });
    assert!(step.actions.is_empty());
    assert!(!r.get(2).unwrap().client);
    assert_eq!(r.get(1).unwrap().pool.map.len(), 0);
    assert_eq!(r.get(0).unwrap().pool.map.len(), 0);
    let ws = r.pool_set(1, &b"k".to_vec(), b"1".to_vec()).unwrap();
    assert!(ws.is_empty());
}
