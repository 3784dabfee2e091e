use ccanvas::channel::Subscription;
use ccanvas::passes::PassItem;
use ccanvas::passes::Passes;

fn items_of(p: &Passes, channel: &Subscription) -> Vec<(usize, Option<u32>)> {
    for (c, e) in p.channels.iter() {
        if c.matches(channel) {
            return e.items.iter().map(|it| (it.id, it.priority)).collect();
        }
    }
    Vec::new()
}

#[test]
fn subscribe_orders_descending_none_last_ties_in_insertion_order() {
    let mut p = Passes::new();
    let c = Subscription::AllKeyPresses;
    assert!(p.subscribe(c.dup(), PassItem::new(1, Some(10))));
    assert!(p.subscribe(c.dup(), PassItem::new(2, None)));
    assert!(p.subscribe(c.dup(), PassItem::new(3, Some(20))));
    assert!(p.subscribe(c.dup(), PassItem::new(4, Some(10))));
    assert_eq!(
        items_of(&p, &c),
        vec![(3, Some(20)), (1, Some(10)), (4, Some(10)), (2, None)]
    );
}

#[test]
fn subscribing_twice_changes_nothing() {
    let mut p = Passes::new();
    let c = Subscription::AllMessages;
    assert!(p.subscribe(c.dup(), PassItem::new(7, Some(1))));
    assert!(!p.subscribe(c.dup(), PassItem::new(7, Some(99))));
    assert_eq!(items_of(&p, &c), vec![(7, Some(1))]);
}

#[test]
fn subscribe_then_unsubscribe_restores_passes() {
    let mut p = Passes::new();
    let c = Subscription::AllKeyPresses;
    p.subscribe(c.dup(), PassItem::new(1, Some(10)));
    p.subscribe(c.dup(), PassItem::new(2, Some(5)));
    let before = items_of(&p, &c);
    let before_members = p.channels[0].1.members.clone();
    assert!(p.subscribe(c.dup(), PassItem::new(3, Some(10))));
    assert!(p.unsubscribe(c.dup(), 3));
    assert_eq!(items_of(&p, &c), before);
    assert_eq!(p.channels[0].1.members, before_members);
}

#[test]
fn unsubscribe_of_last_member_drops_the_channel() {
    let mut p = Passes::new();
    let c = Subscription::Focused;
    p.subscribe(c.dup(), PassItem::new(5, None));
    assert_eq!(p.channels.len(), 1);
    assert!(p.unsubscribe(c.dup(), 5));
    assert_eq!(p.channels.len(), 0);
    assert!(!p.unsubscribe(c.dup(), 5));
}

#[test]
fn unsub_all_purges_every_channel() {
    let mut p = Passes::new();
    p.subscribe(Subscription::Everything, PassItem::new(1, Some(1)));
    p.subscribe(Subscription::Everything, PassItem::new(2, Some(2)));
    p.subscribe(Subscription::AllKeyPresses, PassItem::new(2, Some(3)));
    p.unsub_all(2);
    assert_eq!(p.channels.len(), 1);
    assert_eq!(items_of(&p, &Subscription::Everything), vec![(1, Some(1))]);
}

#[test]
fn subscribers_merges_dedups_and_sorts() {
    let mut p = Passes::new();
    p.subscribe(Subscription::Everything, PassItem::new(1, Some(5)));
    p.subscribe(Subscription::AllKeyPresses, PassItem::new(2, Some(10)));
    // id 1 also on the key channel at another priority: the first-matched
    // channel's record wins
    p.subscribe(Subscription::AllKeyPresses, PassItem::new(1, Some(50)));
    let chans = vec![Subscription::Everything, Subscription::AllKeyPresses];
    let order: Vec<(usize, Option<u32>)> =
        p.subscribers(&chans).iter().map(|it| (it.id, it.priority)).collect();
    // id 1 was first collected on Everything at priority 5
    assert_eq!(order, vec![(2, Some(10)), (1, Some(5))]);
}
