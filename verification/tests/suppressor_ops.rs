use ccanvas::channel::Subscription;
use ccanvas::suppressor::Suppressors;

#[test]
fn suppress_orders_descending_with_ties_in_insertion_order() {
    let mut s = Suppressors::new();
    let id10 = s.insert(Subscription::AllKeyPresses, 10);
    let id30 = s.insert(Subscription::AllKeyPresses, 30);
    let id20a = s.insert(Subscription::AllKeyPresses, 20);
    let id20b = s.insert(Subscription::AllKeyPresses, 20);
    assert_eq!(s.channels.len(), 1);
    let list = &s.channels[0].1;
    let priorities: Vec<u32> = list.iter().map(|it| it.priority).collect();
    assert_eq!(priorities, vec![30, 20, 20, 10]);
    // equal priorities keep insertion order
    assert_eq!(list[1].id, id20a);
    assert_eq!(list[2].id, id20b);
    assert_eq!(list[0].id, id30);
    assert_eq!(list[3].id, id10);
}

#[test]
fn state_id_moves_on_every_mutation() {
    let mut s = Suppressors::new();
    assert_eq!(s.state_id(), 0);
    let id = s.insert(Subscription::Everything, 5);
    assert_eq!(s.state_id(), 1);
    let removed = s.remove(Subscription::Everything, id);
    assert!(removed);
    assert_eq!(s.state_id(), 2);
    // removing again finds nothing but still moves the counter
    let removed2 = s.remove(Subscription::Everything, id);
    assert!(!removed2);
    assert_eq!(s.state_id(), 3);
}

#[test]
fn suppress_then_unsuppress_restores_the_map() {
    let mut s = Suppressors::new();
    s.insert(Subscription::AllKeyPresses, 7);
    s.insert(Subscription::AllKeyPresses, 3);
    let before: Vec<(u32, u32)> = s.channels[0].1.iter().map(|it| (it.priority, it.id)).collect();
    let id = s.insert(Subscription::AllKeyPresses, 5);
    assert!(s.remove(Subscription::AllKeyPresses, id));
    let after: Vec<(u32, u32)> = s.channels[0].1.iter().map(|it| (it.priority, it.id)).collect();
    assert_eq!(before, after);
}

#[test]
fn unsuppress_of_last_item_drops_the_channel() {
    let mut s = Suppressors::new();
    let id = s.insert(Subscription::ScreenResize, 9);
    assert_eq!(s.channels.len(), 1);
    assert!(s.remove(Subscription::ScreenResize, id));
    assert_eq!(s.channels.len(), 0);
}

#[test]
fn suppress_level_is_the_maximum_over_matched_channels() {
    let mut s = Suppressors::new();
    s.insert(Subscription::AllKeyPresses, 20);
    s.insert(Subscription::Everything, 5);
    let chans = vec![Subscription::Everything, Subscription::AllKeyPresses];
    assert_eq!(s.suppress_level(&chans), Some(20));
    let only_everything = vec![Subscription::Everything];
    assert_eq!(s.suppress_level(&only_everything), Some(5));
    let unmatched = vec![Subscription::AllMouseEvents];
    assert_eq!(s.suppress_level(&unmatched), None);
}
