use ccanvas::channel::KeyEvent;
use ccanvas::channel::Subscription;
use ccanvas::dispatch::delivered_prefix;
use ccanvas::dispatch::dispatch_targets;
use ccanvas::dispatch::opt_min_exec;
use ccanvas::dispatch::propagates_down;
use ccanvas::event::Event;
use ccanvas::passes::PassItem;
use ccanvas::registry::ConnKind;
use ccanvas::registry::ParentRef;
use ccanvas::registry::Registry;

fn key_event() -> Event {
    Event::KeyPress(KeyEvent { code: 13, modifier: 0 })
}

#[test]
fn events_map_to_their_channels() {
    let subs = key_event().subscriptions();
    assert_eq!(subs.len(), 5);
    assert!(subs[0].matches(&Subscription::Everything));
    assert!(subs[1].matches(&Subscription::AllKeyPresses));
    assert!(subs[2].matches(&Subscription::SpecificKeyPress {
        key: KeyEvent { code: 13, modifier: 0 }
    }));
    assert!(subs[3].matches(&Subscription::SpecificKeyCode { code: 13 }));
    assert!(subs[4].matches(&Subscription::SpecificKeyModifier { modifier: 0 }));
    let focus_subs = Event::Focus.subscriptions();
    assert_eq!(focus_subs.len(), 2);
    assert!(focus_subs[1].matches(&Subscription::Focused));
}

#[test]
fn priority_capture_stops_the_lower_subscriber() {
    // two subscribers on the key channel, priorities 10 and 5, both pass
    let mut r = Registry::new();
    r.create(1, ParentRef::ById(0), false, b"one".to_vec(), ConnKind::Process).unwrap();
    r.create(2, ParentRef::ById(0), false, b"two".to_vec(), ConnKind::Process).unwrap();
    r.pass_subscribe(0, Subscription::AllKeyPresses, PassItem::new(1, Some(10)));
    r.pass_subscribe(0, Subscription::AllKeyPresses, PassItem::new(2, Some(5)));
    let master = r.get(0).unwrap();
    let targets = dispatch_targets(master, &key_event(), None);
    let order: Vec<usize> = targets.iter().map(|t| t.id).collect();
    assert_eq!(order, vec![1, 2]);
    // the priority-10 subscriber answers with a capture
    let (delivered, captured) = delivered_prefix(&targets, &vec![false, true]);
    assert!(captured);
    let got: Vec<usize> = delivered.iter().map(|t| t.id).collect();
    assert_eq!(got, vec![1]);
    // when both pass, both receive it and nothing is captured
    let (all, captured2) = delivered_prefix(&targets, &vec![true, true]);
    assert!(!captured2);
    assert_eq!(all.len(), 2);
}

#[test]
fn a_suppressor_above_the_priority_skips_the_subscriber() {
    let mut r = Registry::new();
    r.create(1, ParentRef::ById(0), false, b"one".to_vec(), ConnKind::Process).unwrap();
    r.pass_subscribe(0, Subscription::AllKeyPresses, PassItem::new(1, Some(10)));
    r.suppress(0, Subscription::AllKeyPresses, 20).unwrap();
    let master = r.get(0).unwrap();
    let targets = dispatch_targets(master, &key_event(), None);
    assert!(targets.is_empty());
}

#[test]
fn a_subscriber_above_the_suppress_level_is_visited() {
    let mut r = Registry::new();
    r.create(1, ParentRef::ById(0), false, b"one".to_vec(), ConnKind::Process).unwrap();
    r.pass_subscribe(0, Subscription::AllKeyPresses, PassItem::new(1, Some(30)));
    r.suppress(0, Subscription::AllKeyPresses, 10).unwrap();
    let master = r.get(0).unwrap();
    let targets = dispatch_targets(master, &key_event(), None);
    assert_eq!(targets.len(), 1);
    // a subscriber with no priority is skipped whenever any level is set
    let mut r2 = Registry::new();
    r2.create(1, ParentRef::ById(0), false, b"one".to_vec(), ConnKind::Process).unwrap();
    r2.pass_subscribe(0, Subscription::AllKeyPresses, PassItem::new(1, None));
    r2.suppress(0, Subscription::AllKeyPresses, 10).unwrap();
    let targets2 = dispatch_targets(r2.get(0).unwrap(), &key_event(), None);
    assert!(targets2.is_empty());
}

#[test]
fn the_inherited_level_lowers_the_local_one() {
    assert_eq!(opt_min_exec(Some(3), Some(8)), Some(3));
    assert_eq!(opt_min_exec(None, Some(8)), Some(8));
    assert_eq!(opt_min_exec(Some(3), None), Some(3));
    assert_eq!(opt_min_exec(None, None), None);
}

#[test]
fn focus_gain_never_propagates_downward() {
    assert!(!propagates_down(&Event::Focus, false));
    assert!(propagates_down(&Event::Unfocus, false));
    assert!(propagates_down(&key_event(), false));
    assert!(!propagates_down(&key_event(), true));
}
