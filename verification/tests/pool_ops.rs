use ccanvas::discrim::Discriminator;
use ccanvas::pool::Pool;
use ccanvas::pool::UnwatchOutcome;

fn pool() -> Pool {
    Pool::new(Discriminator(vec![1]))
}

#[test]
fn set_then_get_yields_the_value() {
    let mut p = pool();
    let ws = p.set(&b"k".to_vec(), b"1".to_vec());
    assert!(ws.is_empty());
    assert_eq!(p.get(&b"k".to_vec()), Some(b"1".to_vec()));
    // overwrite
    p.set(&b"k".to_vec(), b"2".to_vec());
    assert_eq!(p.get(&b"k".to_vec()), Some(b"2".to_vec()));
}

#[test]
fn remove_then_get_yields_nothing() {
    let mut p = pool();
    p.set(&b"k".to_vec(), b"1".to_vec());
    let ws = p.remove(&b"k".to_vec());
    assert!(ws.is_empty());
    assert_eq!(p.get(&b"k".to_vec()), None);
    assert_eq!(p.map.len(), 0);
}

#[test]
fn get_of_missing_label_is_nothing() {
    let p = pool();
    assert_eq!(p.get(&b"missing".to_vec()), None);
}

#[test]
fn set_reports_watchers_in_stored_order() {
    let mut p = pool();
    p.watch(&b"k".to_vec(), 4);
    p.watch(&b"k".to_vec(), 9);
    p.watch(&b"k".to_vec(), 4);  // watching twice changes nothing
    let ws = p.set(&b"k".to_vec(), b"v".to_vec());
    assert_eq!(ws, vec![4, 9]);
    let ws2 = p.remove(&b"k".to_vec());
    assert_eq!(ws2, vec![4, 9]);
    // the entry survives: watchers hold it open
    assert_eq!(p.map.len(), 1);
    assert_eq!(p.get(&b"k".to_vec()), None);
}

#[test]
fn unwatch_prunes_and_reports() {
    let mut p = pool();
    p.watch(&b"k".to_vec(), 4);
    assert!(matches!(p.unwatch(&b"k".to_vec(), 7), UnwatchOutcome::NotWatching));
    assert!(matches!(p.unwatch(&b"k".to_vec(), 4), UnwatchOutcome::Removed));
    // nothing held the entry open
    assert_eq!(p.map.len(), 0);
    assert!(matches!(p.unwatch(&b"k".to_vec(), 4), UnwatchOutcome::NoEntry));
}

#[test]
fn dead_watchers_are_pruned_after_a_broadcast() {
    let mut p = pool();
    p.set(&b"k".to_vec(), b"1".to_vec());
    p.watch(&b"k".to_vec(), 4);
    p.watch(&b"k".to_vec(), 9);
    let ws = p.set(&b"k".to_vec(), b"2".to_vec());
    assert_eq!(ws, vec![4, 9]);
    // the send to watcher 4 failed: it goes
    p.remove_watchers(&b"k".to_vec(), &vec![4]);
    let ws2 = p.set(&b"k".to_vec(), b"3".to_vec());
    assert_eq!(ws2, vec![9]);
}

#[test]
fn unwatch_all_drops_a_watcher_everywhere() {
    let mut p = pool();
    p.watch(&b"a".to_vec(), 4);
    p.set(&b"b".to_vec(), b"1".to_vec());
    p.watch(&b"b".to_vec(), 4);
    p.unwatch_all(4);
    // "a" had nothing else: purged; "b" keeps its value
    assert_eq!(p.map.len(), 1);
    assert_eq!(p.get(&b"b".to_vec()), Some(b"1".to_vec()));
    let ws = p.set(&b"b".to_vec(), b"2".to_vec());
    assert!(ws.is_empty());
}
