//! The pool: a per-component keyed value store with watchers. Setting or
//! removing a value reports the watchers to notify; watchers whose channel
//! proved dead are pruned afterwards. An item with no value and no watchers
//! is purged.

use vstd::prelude::*;

use crate::assoc::amap;
use crate::assoc::has_key;
use crate::assoc::keys_unique;
use crate::assoc::lemma_amap_dom;
use crate::assoc::lemma_amap_get;
use crate::assoc::lemma_amap_push;
use crate::assoc::lemma_amap_remove;
use crate::assoc::lemma_amap_update;
use crate::discrim::Discriminator;
use crate::util::bytes_eq;
use crate::util::dup_bytes;
use crate::util::dup_ids;

verus! {

/// A single pool entry: an optional value and the watchers listening on it.
pub struct PoolItem {
    /// the value of the entry, when one has been set
    pub value: Option<Vec<u8>>,
    /// watcher ids, in insertion order
    pub listener: Vec<usize>,
}

/// The mathematical value of an entry.
pub type ItemV = (Option<Seq<u8>>, Seq<usize>);

/// A watcher list holds an id at most once.
pub open spec fn watchers_distinct(ws: Seq<usize>) -> bool {
    forall|i: int, j: int| 0 <= i < j < ws.len() ==> ws[i] != ws[j]
}

/// An entry is kept only while it holds a value or a watcher.
pub open spec fn item_live(e: ItemV) -> bool {
    e.0 is Some || e.1.len() > 0
}

/// The watcher list without `d`.
pub open spec fn drop_watcher(ws: Seq<usize>, d: usize) -> Seq<usize>
    decreases ws.len(),
{
    if ws.len() == 0 {
        Seq::empty()
    } else {
        let rest = drop_watcher(ws.drop_last(), d);
        if ws.last() != d {
            rest.push(ws.last())
        } else {
            rest
        }
    }
}

/// The watcher list without any of the `dead` ones.
pub open spec fn drop_dead(ws: Seq<usize>, dead: Seq<usize>) -> Seq<usize>
    decreases ws.len(),
{
    if ws.len() == 0 {
        Seq::empty()
    } else {
        let rest = drop_dead(ws.drop_last(), dead);
        if !dead.contains(ws.last()) {
            rest.push(ws.last())
        } else {
            rest
        }
    }
}

/// Pool of key-value pairs for shared access, owned by one component.
pub struct Pool {
    /// the owning component
    pub discrim: Discriminator,
    /// the entries, keyed by label
    pub map: Vec<(Vec<u8>, PoolItem)>,
}

impl Pool {
    pub open spec fn pairs(&self) -> Seq<(Seq<u8>, ItemV)> {
        self.map@.map_values(
            |p: (Vec<u8>, PoolItem)| (
                p.0@,
                (
                    match p.1.value {
                        Option::Some(v) => Option::Some(v@),
                        Option::None => Option::None,
                    },
                    p.1.listener@,
                ),
            ),
        )
    }

    pub open spec fn wf(&self) -> bool {
        &&& keys_unique(self.pairs())
        &&& forall|i: int|
            0 <= i < self.pairs().len() ==> {
                &&& item_live((#[trigger] self.pairs()[i]).1)
                &&& watchers_distinct(self.pairs()[i].1.1)
            }
    }
}

impl View for Pool {
    type V = Map<Seq<u8>, ItemV>;

    open spec fn view(&self) -> Map<Seq<u8>, ItemV> {
        amap(self.pairs())
    }
}

/// The pool map after setting `label` to `value`: the value is overwritten,
/// the watchers are kept, and a missing entry is created.
pub open spec fn after_set(m: Map<Seq<u8>, ItemV>, label: Seq<u8>, value: Seq<u8>) -> Map<
    Seq<u8>,
    ItemV,
> {
    if m.dom().contains(label) {
        m.insert(label, (Some(value), m[label].1))
    } else {
        m.insert(label, (Some(value), Seq::empty()))
    }
}

/// The pool map after clearing `label`: the value goes, and the entry itself
/// goes too when no watcher holds it open.
pub open spec fn after_remove(m: Map<Seq<u8>, ItemV>, label: Seq<u8>) -> Map<Seq<u8>, ItemV> {
    if m.dom().contains(label) {
        if m[label].1.len() == 0 {
            m.remove(label)
        } else {
            m.insert(label, (None, m[label].1))
        }
    } else {
        m
    }
}

/// The value `get` yields: the current value of the entry, if any.
pub open spec fn value_of(m: Map<Seq<u8>, ItemV>, label: Seq<u8>) -> Option<Seq<u8>> {
    if m.dom().contains(label) {
        m[label].0
    } else {
        None
    }
}

impl Pool {
    /// An empty pool owned by `discrim`.
    pub fn new(discrim: Discriminator) -> (r: Pool)
        ensures
            r.wf(),
            r@ == Map::<Seq<u8>, ItemV>::empty(),
            r.discrim@ == discrim@,
    {
        let r = Pool { discrim, map: Vec::new() };
        proof {
            assert(r.pairs() =~= Seq::<(Seq<u8>, ItemV)>::empty());
        }
        r
    }

    /// The index of `label`'s entry, if any.
    fn find(&self, label: &Vec<u8>) -> (r: Option<usize>)
        ensures
            match r {
                Some(i) => i < self.pairs().len() && self.pairs()[i as int].0 == label@,
                None => !has_key(self.pairs(), label@),
            },
    {
        let n: usize = self.map.len();
        let mut i: usize = 0;
        while i < n
            invariant
                n == self.map@.len(),
                n == self.pairs().len(),
                0 <= i <= n,
                forall|j: int| 0 <= j < i ==> self.pairs()[j].0 != label@,
            decreases n - i,
        {
            if bytes_eq(&self.map[i].0, label) {
                proof {
                    assert(self.pairs()[i as int].0 == self.map@[i as int].0@);
                }
                return Some(i);
            }
            proof {
                assert(self.pairs()[i as int].0 == self.map@[i as int].0@);
            }
            i = i + 1;
        }
        None
    }

    /// The current value of `label`, or nothing: missing entries and
    /// value-less entries (held open by watchers alone) both yield `None`.
    pub fn get(&self, label: &Vec<u8>) -> (r: Option<Vec<u8>>)
        requires
            self.wf(),
        ensures
            match r {
                Some(v) => value_of(self@, label@) == Some(v@),
                None => value_of(self@, label@) is None,
            },
    {
        proof {
            lemma_amap_dom::<Seq<u8>, ItemV>(self.pairs());
        }
        match self.find(label) {
            Some(i) => {
                proof {
                    lemma_amap_get(self.pairs(), i as int);
                }
                match &self.map[i].1.value {
                    Some(v) => Some(dup_bytes(v)),
                    None => None,
                }
            },
            None => None,
        }
    }

    /// Set `label` to `value`, overwriting any previous value; the entry is
    /// created when absent. Returns the watchers that must be told
    /// `ValueUpdated`, in their stored order.
    pub fn set(&mut self, label: &Vec<u8>, value: Vec<u8>) -> (r: Vec<usize>)
        requires
            old(self).wf(),
        ensures
            final(self).wf(),
            final(self)@ == after_set(old(self)@, label@, value@),
            final(self).discrim@ == old(self).discrim@,
            r@ == final(self)@[label@].1,
    {
        proof {
            lemma_amap_dom::<Seq<u8>, ItemV>(self.pairs());
        }
        match self.find(label) {
            Some(i) => {
                let ghost old_pairs = self.pairs();
                proof {
                    lemma_amap_get(old_pairs, i as int);
                }
                let (key, mut item) = self.map.remove(i);
                item.value = Some(value);
                let r = dup_ids(&item.listener);
                self.map.insert(i, (key, item));
                proof {
                    let new_item = (Some(value@), old_pairs[i as int].1.1);
                    assert(self.pairs() =~= old_pairs.update(
                        i as int,
                        (old_pairs[i as int].0, new_item),
                    ));
                    lemma_amap_update(old_pairs, i as int, new_item);
                    assert forall|w: int| 0 <= w < self.pairs().len() implies {
                        &&& item_live((#[trigger] self.pairs()[w]).1)
                        &&& watchers_distinct(self.pairs()[w].1.1)
                    } by {
                        if w != i {
                            assert(self.pairs()[w] == old_pairs[w]);
                        }
                    }
                }
                r
            },
            None => {
                let ghost old_pairs = self.pairs();
                let key = dup_bytes(label);
                self.map.push((key, PoolItem { value: Some(value), listener: Vec::new() }));
                proof {
                    let new_item = (Some(value@), Seq::<usize>::empty());
                    assert(self.pairs()[self.pairs().len() - 1].1.1 =~= Seq::<usize>::empty());
                    assert(self.pairs() =~= old_pairs.push((label@, new_item)));
                    lemma_amap_push(old_pairs, label@, new_item);
                    assert forall|w: int| 0 <= w < self.pairs().len() implies {
                        &&& item_live((#[trigger] self.pairs()[w]).1)
                        &&& watchers_distinct(self.pairs()[w].1.1)
                    } by {
                        if w < self.pairs().len() - 1 {
                            assert(self.pairs()[w] == old_pairs[w]);
                        }
                    }
                    assert(keys_unique(self.pairs())) by {
                        assert forall|a: int, b: int|
                            0 <= a < b < self.pairs().len() implies self.pairs()[a].0
                            != self.pairs()[b].0 by {
                            if b == self.pairs().len() - 1 {
                                assert(self.pairs()[a] == old_pairs[a]);
                                assert(!has_key(old_pairs, label@));
                            } else {
                                assert(self.pairs()[a] == old_pairs[a]);
                                assert(self.pairs()[b] == old_pairs[b]);
                            }
                        }
                    }
                }
                Vec::new()
            },
        }
    }

    /// Clear `label`'s value; the entry is purged when no watcher holds it
    /// open. Returns the watchers that must be told `ValueRemoved`.
    pub fn remove(&mut self, label: &Vec<u8>) -> (r: Vec<usize>)
        requires
            old(self).wf(),
        ensures
            final(self).wf(),
            final(self)@ == after_remove(old(self)@, label@),
            final(self).discrim@ == old(self).discrim@,
            r@ == if old(self)@.dom().contains(label@) {
                old(self)@[label@].1
            } else {
                Seq::<usize>::empty()
            },
    {
        proof {
            lemma_amap_dom::<Seq<u8>, ItemV>(self.pairs());
        }
        match self.find(label) {
            Some(i) => {
                let ghost old_pairs = self.pairs();
                proof {
                    lemma_amap_get(old_pairs, i as int);
                }
                let (key, mut item) = self.map.remove(i);
                item.value = None;
                let r = dup_ids(&item.listener);
                if item.listener.len() == 0 {
                    proof {
                        lemma_amap_remove(old_pairs, i as int);
                        assert(self.pairs() =~= old_pairs.remove(i as int));
                        assert(old_pairs[i as int].1.1 =~= Seq::<usize>::empty());
                        assert forall|w: int| 0 <= w < self.pairs().len() implies {
                            &&& item_live((#[trigger] self.pairs()[w]).1)
                            &&& watchers_distinct(self.pairs()[w].1.1)
                        } by {
                            if w < i {
                                assert(self.pairs()[w] == old_pairs[w]);
                            } else {
                                assert(self.pairs()[w] == old_pairs[w + 1]);
                            }
                        }
                        assert(keys_unique(self.pairs())) by {
                            assert forall|a: int, b: int|
                                0 <= a < b < self.pairs().len() implies self.pairs()[a].0
                                != self.pairs()[b].0 by {
                                let a2 = if a < i {
                                    a
                                } else {
                                    a + 1
                                };
                                let b2 = if b < i {
                                    b
                                } else {
                                    b + 1
                                };
                                assert(self.pairs()[a] == old_pairs[a2]);
                                assert(self.pairs()[b] == old_pairs[b2]);
                            }
                        }
                    }
                    r
                } else {
                    self.map.insert(i, (key, item));
                    proof {
                        let new_item = (Option::<Seq<u8>>::None, old_pairs[i as int].1.1);
                        assert(self.pairs() =~= old_pairs.update(
                            i as int,
                            (old_pairs[i as int].0, new_item),
                        ));
                        lemma_amap_update(old_pairs, i as int, new_item);
                        assert forall|w: int| 0 <= w < self.pairs().len() implies {
                            &&& item_live((#[trigger] self.pairs()[w]).1)
                            &&& watchers_distinct(self.pairs()[w].1.1)
                        } by {
                            if w != i {
                                assert(self.pairs()[w] == old_pairs[w]);
                            }
                        }
                    }
                    r
                }
            },
            None => {
                Vec::new()
            },
        }
    }

    /// Register watcher `watcher` on `label`; an empty entry is created when
    /// the label is absent, and watching twice changes nothing.
    pub fn watch(&mut self, label: &Vec<u8>, watcher: usize)
        requires
            old(self).wf(),
        ensures
            final(self).wf(),
            final(self).discrim@ == old(self).discrim@,
            final(self)@ == if old(self)@.dom().contains(label@) {
                if old(self)@[label@].1.contains(watcher) {
                    old(self)@
                } else {
                    old(self)@.insert(
                        label@,
                        (old(self)@[label@].0, old(self)@[label@].1.push(watcher)),
                    )
                }
            } else {
                old(self)@.insert(label@, (None, seq![watcher]))
            },
    {
        proof {
            lemma_amap_dom::<Seq<u8>, ItemV>(self.pairs());
        }
        match self.find(label) {
            Some(i) => {
                let ghost old_pairs = self.pairs();
                proof {
                    lemma_amap_get(old_pairs, i as int);
                }
                let n: usize = self.map[i].1.listener.len();
                let mut k: usize = 0;
                while k < n && self.map[i].1.listener[k] != watcher
                    invariant
                        i < self.map@.len(),
                        n == self.map@[i as int].1.listener@.len(),
                        0 <= k <= n,
                        forall|j: int|
                            0 <= j < k ==> self.map@[i as int].1.listener@[j] != watcher,
                    decreases n - k,
                {
                    k = k + 1;
                }
                if k < n {
                    proof {
                        assert(old_pairs[i as int].1.1[k as int] == watcher);
                        assert(old_pairs[i as int].1.1.contains(watcher));
                        assert(self@ == old(self)@);
                    }
                    return ;
                }
                proof {
                    assert(forall|j: int|
                        0 <= j < old_pairs[i as int].1.1.len() ==> old_pairs[i as int].1.1[j]
                            != watcher);
                    assert(!old_pairs[i as int].1.1.contains(watcher));
                }
                let (key, mut item) = self.map.remove(i);
                item.listener.push(watcher);
                self.map.insert(i, (key, item));
                proof {
                    let new_item = (
                        old_pairs[i as int].1.0,
                        old_pairs[i as int].1.1.push(watcher),
                    );
                    assert(self.pairs() =~= old_pairs.update(
                        i as int,
                        (old_pairs[i as int].0, new_item),
                    ));
                    lemma_amap_update(old_pairs, i as int, new_item);
                    assert forall|w: int| 0 <= w < self.pairs().len() implies {
                        &&& item_live((#[trigger] self.pairs()[w]).1)
                        &&& watchers_distinct(self.pairs()[w].1.1)
                    } by {
                        if w != i {
                            assert(self.pairs()[w] == old_pairs[w]);
                        } else {
                            assert(watchers_distinct(old_pairs[i as int].1.1));
                            assert forall|a: int, b: int|
                                0 <= a < b < new_item.1.len() implies new_item.1[a]
                                != new_item.1[b] by {
                                if b == new_item.1.len() - 1 {
                                    assert(new_item.1[a] == old_pairs[i as int].1.1[a]);
                                }
                            }
                        }
                    }
                }
            },
            None => {
                let ghost old_pairs = self.pairs();
                let key = dup_bytes(label);
                let mut listener: Vec<usize> = Vec::new();
                listener.push(watcher);
                self.map.push((key, PoolItem { value: None, listener }));
                proof {
                    let new_item = (Option::<Seq<u8>>::None, seq![watcher]);
                    assert(self.pairs()[self.pairs().len() - 1].1.1 =~= seq![watcher]);
                    assert(self.pairs() =~= old_pairs.push((label@, new_item)));
                    lemma_amap_push(old_pairs, label@, new_item);
                    assert forall|w: int| 0 <= w < self.pairs().len() implies {
                        &&& item_live((#[trigger] self.pairs()[w]).1)
                        &&& watchers_distinct(self.pairs()[w].1.1)
                    } by {
                        if w < self.pairs().len() - 1 {
                            assert(self.pairs()[w] == old_pairs[w]);
                        }
                    }
                    assert(keys_unique(self.pairs())) by {
                        assert forall|a: int, b: int|
                            0 <= a < b < self.pairs().len() implies self.pairs()[a].0
                            != self.pairs()[b].0 by {
                            if b == self.pairs().len() - 1 {
                                assert(self.pairs()[a] == old_pairs[a]);
                                assert(!has_key(old_pairs, label@));
                            } else {
                                assert(self.pairs()[a] == old_pairs[a]);
                                assert(self.pairs()[b] == old_pairs[b]);
                            }
                        }
                    }
                }
            },
        }
    }
}

/// What `unwatch` found and did.
pub enum UnwatchOutcome {
    /// no entry under that label
    NoEntry,
    /// the entry exists but that watcher was not on it
    NotWatching,
    /// the watcher was removed; it should be told `ValueRemoved`
    Removed,
}

impl Pool {
    /// Remove `watcher` from `label`'s entry; the entry is purged when
    /// nothing holds it open. Says whether the label existed and whether the
    /// departing watcher must be told `ValueRemoved`.
    pub fn unwatch(&mut self, label: &Vec<u8>, watcher: usize) -> (r: UnwatchOutcome)
        requires
            old(self).wf(),
        ensures
            final(self).wf(),
            final(self).discrim@ == old(self).discrim@,
            match r {
                UnwatchOutcome::NoEntry => !old(self)@.dom().contains(label@) && final(self)@
                    == old(self)@,
                UnwatchOutcome::NotWatching => old(self)@.dom().contains(label@) && !old(
                    self,
                )@[label@].1.contains(watcher) && final(self)@ == old(self)@,
                UnwatchOutcome::Removed => {
                    &&& old(self)@.dom().contains(label@)
                    &&& old(self)@[label@].1.contains(watcher)
                    &&& {
                        let left = (
                            old(self)@[label@].0,
                            drop_watcher(old(self)@[label@].1, watcher),
                        );
                        final(self)@ == if item_live(left) {
                            old(self)@.insert(label@, left)
                        } else {
                            old(self)@.remove(label@)
                        }
                    }
                },
            },
    {
        proof {
            lemma_amap_dom::<Seq<u8>, ItemV>(self.pairs());
        }
        match self.find(label) {
            Some(i) => {
                let ghost old_pairs = self.pairs();
                let ghost old_ws = self.pairs()[i as int].1.1;
                proof {
                    lemma_amap_get(old_pairs, i as int);
                }
                let n: usize = self.map[i].1.listener.len();
                let mut k: usize = 0;
                while k < n && self.map[i].1.listener[k] != watcher
                    invariant
                        i < self.map@.len(),
                        n == self.map@[i as int].1.listener@.len(),
                        0 <= k <= n,
                        forall|j: int|
                            0 <= j < k ==> self.map@[i as int].1.listener@[j] != watcher,
                    decreases n - k,
                {
                    k = k + 1;
                }
                if k == n {
                    proof {
                        assert(forall|j: int| 0 <= j < old_ws.len() ==> old_ws[j] != watcher);
                        assert(!old_ws.contains(watcher));
                    }
                    return UnwatchOutcome::NotWatching;
                }
                proof {
                    assert(old_ws[k as int] == watcher);
                    assert(old_ws.contains(watcher));
                }
                let (key, mut item) = self.map.remove(i);
                item.listener.remove(k);
                let ghost new_ws = item.listener@;
                proof {
                    assert(watchers_distinct(old_ws));
                    assert(new_ws =~= old_ws.remove(k as int));
                    assert(drop_watcher(old_ws, watcher) == old_ws.remove(k as int)) by {
                        lemma_drop_watcher_unique(old_ws, watcher, k as int);
                    }
                    assert(watchers_distinct(new_ws)) by {
                        assert forall|a: int, b: int|
                            0 <= a < b < new_ws.len() implies new_ws[a] != new_ws[b] by {
                            let a2 = if a < k as int {
                                a
                            } else {
                                a + 1
                            };
                            let b2 = if b < k as int {
                                b
                            } else {
                                b + 1
                            };
                            assert(new_ws[a] == old_ws[a2]);
                            assert(new_ws[b] == old_ws[b2]);
                        }
                    }
                }
                let live = item.value.is_some() || item.listener.len() > 0;
                if live {
                    self.map.insert(i, (key, item));
                    proof {
                        let new_item = (old_pairs[i as int].1.0, new_ws);
                        assert(self.pairs() =~= old_pairs.update(
                            i as int,
                            (old_pairs[i as int].0, new_item),
                        ));
                        lemma_amap_update(old_pairs, i as int, new_item);
                        assert forall|w: int| 0 <= w < self.pairs().len() implies {
                            &&& item_live((#[trigger] self.pairs()[w]).1)
                            &&& watchers_distinct(self.pairs()[w].1.1)
                        } by {
                            if w != i {
                                assert(self.pairs()[w] == old_pairs[w]);
                            }
                        }
                    }
                } else {
                    proof {
                        lemma_amap_remove(old_pairs, i as int);
                        assert(self.pairs() =~= old_pairs.remove(i as int));
                        assert forall|w: int| 0 <= w < self.pairs().len() implies {
                            &&& item_live((#[trigger] self.pairs()[w]).1)
                            &&& watchers_distinct(self.pairs()[w].1.1)
                        } by {
                            if w < i {
                                assert(self.pairs()[w] == old_pairs[w]);
                            } else {
                                assert(self.pairs()[w] == old_pairs[w + 1]);
                            }
                        }
                        assert(keys_unique(self.pairs())) by {
                            assert forall|a: int, b: int|
                                0 <= a < b < self.pairs().len() implies self.pairs()[a].0
                                != self.pairs()[b].0 by {
                                let a2 = if a < i {
                                    a
                                } else {
                                    a + 1
                                };
                                let b2 = if b < i {
                                    b
                                } else {
                                    b + 1
                                };
                                assert(self.pairs()[a] == old_pairs[a2]);
                                assert(self.pairs()[b] == old_pairs[b2]);
                            }
                        }
                    }
                }
                UnwatchOutcome::Removed
            },
            None => {
                UnwatchOutcome::NoEntry
            },
        }
    }

    /// Prune the watchers of `label` whose channel proved dead during a
    /// broadcast; the entry keeps its value.
    pub fn remove_watchers(&mut self, label: &Vec<u8>, dead: &Vec<usize>)
        requires
            old(self).wf(),
        ensures
            final(self).wf(),
            final(self).discrim@ == old(self).discrim@,
            final(self)@ == if old(self)@.dom().contains(label@) {
                let left = (old(self)@[label@].0, drop_dead(old(self)@[label@].1, dead@));
                if item_live(left) {
                    old(self)@.insert(label@, left)
                } else {
                    old(self)@.remove(label@)
                }
            } else {
                old(self)@
            },
    {
        proof {
            lemma_amap_dom::<Seq<u8>, ItemV>(self.pairs());
        }
        match self.find(label) {
            Some(i) => {
                let ghost old_pairs = self.pairs();
                let ghost old_ws = self.pairs()[i as int].1.1;
                proof {
                    lemma_amap_get(old_pairs, i as int);
                }
                let (key, mut item) = self.map.remove(i);
                let n: usize = item.listener.len();
                let mut kept: Vec<usize> = Vec::new();
                let mut k: usize = 0;
                while k < n
                    invariant
                        n == item.listener@.len(),
                        item.listener@ == old_ws,
                        0 <= k <= n,
                        kept@ == drop_dead(old_ws.subrange(0, k as int), dead@),
                    decreases n - k,
                {
                    proof {
                        assert(old_ws.subrange(0, k + 1).drop_last() =~= old_ws.subrange(
                            0,
                            k as int,
                        ));
                        assert(old_ws.subrange(0, k + 1).last() == old_ws[k as int]);
                    }
                    let dn: usize = dead.len();
                    let mut t: usize = 0;
                    while t < dn && dead[t] != item.listener[k]
                        invariant
                            k < item.listener@.len(),
                            dn == dead@.len(),
                            0 <= t <= dn,
                            forall|j: int| 0 <= j < t ==> dead@[j] != item.listener@[k as int],
                        decreases dn - t,
                    {
                        t = t + 1;
                    }
                    if t == dn {
                        proof {
                            assert(forall|j: int|
                                0 <= j < dead@.len() ==> dead@[j] != old_ws[k as int]);
                            assert(!dead@.contains(old_ws[k as int]));
                        }
                        kept.push(item.listener[k]);
                        proof {
                            assert(kept@ =~= drop_dead(old_ws.subrange(0, k + 1), dead@));
                        }
                    } else {
                        proof {
                            assert(dead@[t as int] == old_ws[k as int]);
                            assert(dead@.contains(old_ws[k as int]));
                            assert(kept@ =~= drop_dead(old_ws.subrange(0, k + 1), dead@));
                        }
                    }
                    k = k + 1;
                }
                proof {
                    assert(old_ws.subrange(0, n as int) =~= old_ws);
                }
                item.listener = kept;
                let ghost new_ws = drop_dead(old_ws, dead@);
                proof {
                    lemma_drop_dead_distinct(old_ws, dead@);
                }
                let live = item.value.is_some() || item.listener.len() > 0;
                if live {
                    self.map.insert(i, (key, item));
                    proof {
                        let new_item = (old_pairs[i as int].1.0, new_ws);
                        assert(self.pairs() =~= old_pairs.update(
                            i as int,
                            (old_pairs[i as int].0, new_item),
                        ));
                        lemma_amap_update(old_pairs, i as int, new_item);
                        assert forall|w: int| 0 <= w < self.pairs().len() implies {
                            &&& item_live((#[trigger] self.pairs()[w]).1)
                            &&& watchers_distinct(self.pairs()[w].1.1)
                        } by {
                            if w != i {
                                assert(self.pairs()[w] == old_pairs[w]);
                            }
                        }
                    }
                } else {
                    proof {
                        lemma_amap_remove(old_pairs, i as int);
                        assert(self.pairs() =~= old_pairs.remove(i as int));
                        assert forall|w: int| 0 <= w < self.pairs().len() implies {
                            &&& item_live((#[trigger] self.pairs()[w]).1)
                            &&& watchers_distinct(self.pairs()[w].1.1)
                        } by {
                            if w < i {
                                assert(self.pairs()[w] == old_pairs[w]);
                            } else {
                                assert(self.pairs()[w] == old_pairs[w + 1]);
                            }
                        }
                        assert(keys_unique(self.pairs())) by {
                            assert forall|a: int, b: int|
                                0 <= a < b < self.pairs().len() implies self.pairs()[a].0
                                != self.pairs()[b].0 by {
                                let a2 = if a < i {
                                    a
                                } else {
                                    a + 1
                                };
                                let b2 = if b < i {
                                    b
                                } else {
                                    b + 1
                                };
                                assert(self.pairs()[a] == old_pairs[a2]);
                                assert(self.pairs()[b] == old_pairs[b2]);
                            }
                        }
                    }
                }
            },
            None => {
            },
        }
    }
}


/// The pool with each of the `dead` watchers purged in turn.
pub open spec fn pool_purged_many(m: Map<Seq<u8>, ItemV>, dead: Seq<usize>) -> Map<
    Seq<u8>,
    ItemV,
>
    decreases dead.len(),
{
    if dead.len() == 0 {
        m
    } else {
        pool_purged(pool_purged_many(m, dead.drop_last()), dead.last())
    }
}

/// What survives the purge of many watchers: entries that were there
/// before, with their values, watched by survivors only.
pub proof fn lemma_pool_many_facts(m: Map<Seq<u8>, ItemV>, dead: Seq<usize>)
    ensures
        forall|l: Seq<u8>| #[trigger]
            pool_purged_many(m, dead).dom().contains(l) ==> m.dom().contains(l)
                && pool_purged_many(m, dead)[l].0 == m[l].0,
        forall|l: Seq<u8>, j: int|
            pool_purged_many(m, dead).dom().contains(l) && 0 <= j < pool_purged_many(
                m,
                dead,
            )[l].1.len() ==> !dead.contains(#[trigger] pool_purged_many(m, dead)[l].1[j])
                && m[l].1.contains(pool_purged_many(m, dead)[l].1[j]),
    decreases dead.len(),
{
    if dead.len() > 0 {
        lemma_pool_many_facts(m, dead.drop_last());
        let prev = pool_purged_many(m, dead.drop_last());
        let cur = pool_purged_many(m, dead);
        let last = dead.last();
        assert forall|l: Seq<u8>, j: int|
            cur.dom().contains(l) && 0 <= j < cur[l].1.len() implies !dead.contains(
            #[trigger] cur[l].1[j],
        ) && m[l].1.contains(cur[l].1[j]) by {
            assert(prev.dom().contains(l));
            assert(cur[l].1 == drop_watcher(prev[l].1, last));
            lemma_drop_watcher_keeps(prev[l].1, last);
            let w = cur[l].1[j];
            assert(w != last);
            assert(cur[l].1.contains(w));
            assert(prev[l].1.contains(w));
            let v = choose|v: int| 0 <= v < prev[l].1.len() && prev[l].1[v] == w;
            assert(!dead.drop_last().contains(w));
            assert(m[l].1.contains(w));
            assert(!dead.contains(w)) by {
                if dead.contains(w) {
                    let u = choose|u: int| 0 <= u < dead.len() && dead[u] == w;
                    if u < dead.len() - 1 {
                        assert(dead.drop_last()[u] == w);
                    }
                }
            }
        }
    }
}

impl Pool {
    /// Drop each of the `dead` watchers from every entry, in order.
    pub fn unwatch_many(&mut self, dead: &Vec<usize>)
        requires
            old(self).wf(),
        ensures
            final(self).wf(),
            final(self).discrim@ == old(self).discrim@,
            final(self)@ == pool_purged_many(old(self)@, dead@),
    {
        let ghost m0 = self@;
        let n: usize = dead.len();
        let mut k: usize = 0;
        while k < n
            invariant
                n == dead@.len(),
                0 <= k <= n,
                self.wf(),
                self.discrim@ == old(self).discrim@,
                self@ == pool_purged_many(m0, dead@.subrange(0, k as int)),
            decreases n - k,
        {
            proof {
                assert(dead@.subrange(0, k + 1).drop_last() =~= dead@.subrange(0, k as int));
                assert(dead@.subrange(0, k + 1).last() == dead@[k as int]);
            }
            self.unwatch_all(dead[k]);
            k = k + 1;
        }
        proof {
            assert(dead@.subrange(0, n as int) =~= dead@);
        }
    }
}

/// Pruning keeps every watcher that is not among the dead.
pub proof fn lemma_drop_dead_keeps(ws: Seq<usize>, dead: Seq<usize>)
    ensures
        forall|e: usize|
            !dead.contains(e) ==> (drop_dead(ws, dead).contains(e) <==> #[trigger] ws.contains(
                e,
            )),
    decreases ws.len(),
{
    if ws.len() > 0 {
        lemma_drop_dead_keeps(ws.drop_last(), dead);
        let rest = drop_dead(ws.drop_last(), dead);
        let f = drop_dead(ws, dead);
        assert(forall|i: int|
            0 <= i < ws.drop_last().len() ==> #[trigger] ws.drop_last()[i] == ws[i]);
        assert forall|e: usize| !dead.contains(e) implies (f.contains(e) <==> #[trigger]
            ws.contains(e)) by {
            if f.contains(e) {
                let w = choose|w: int| 0 <= w < f.len() && f[w] == e;
                if !dead.contains(ws.last()) && w == f.len() - 1 {
                    assert(ws[ws.len() - 1] == e);
                } else {
                    assert(rest[w] == e);
                    assert(rest.contains(e));
                    assert(ws.drop_last().contains(e));
                    let v = choose|v: int|
                        0 <= v < ws.drop_last().len() && ws.drop_last()[v] == e;
                    assert(ws[v] == e);
                }
            }
            if ws.contains(e) {
                let w = choose|w: int| 0 <= w < ws.len() && ws[w] == e;
                if w == ws.len() - 1 {
                    assert(f[f.len() - 1] == e);
                } else {
                    assert(ws.drop_last()[w] == e);
                    assert(ws.drop_last().contains(e));
                    assert(rest.contains(e));
                    let v = choose|v: int| 0 <= v < rest.len() && rest[v] == e;
                    assert(f[v] == e);
                }
            }
        }
    }
}

/// With distinct watchers, dropping `d` is removing its one occurrence.
pub proof fn lemma_drop_watcher_unique(ws: Seq<usize>, d: usize, k: int)
    requires
        watchers_distinct(ws),
        0 <= k < ws.len(),
        ws[k] == d,
    ensures
        drop_watcher(ws, d) == ws.remove(k),
    decreases ws.len(),
{
    if k == ws.len() - 1 {
        assert(ws.remove(k) =~= ws.drop_last());
        assert(forall|i: int| 0 <= i < ws.drop_last().len() ==> #[trigger] ws.drop_last()[i] != d);
        lemma_drop_watcher_absent(ws.drop_last(), d);
    } else {
        assert(watchers_distinct(ws.drop_last())) by {
            assert(forall|i: int|
                0 <= i < ws.drop_last().len() ==> #[trigger] ws.drop_last()[i] == ws[i]);
        }
        assert(ws.drop_last()[k] == ws[k]);
        lemma_drop_watcher_unique(ws.drop_last(), d, k);
        assert(ws.last() != d);
        assert(drop_watcher(ws, d) == ws.drop_last().remove(k).push(ws.last()));
        assert(ws.drop_last().remove(k).push(ws.last()) =~= ws.remove(k));
    }
}

/// Dropping one watcher keeps every other watcher.
pub proof fn lemma_drop_watcher_keeps(ws: Seq<usize>, d: usize)
    ensures
        forall|x: usize| x != d ==> (drop_watcher(ws, d).contains(x) <==> #[trigger] ws.contains(
            x,
        )),
        forall|i: int| 0 <= i < drop_watcher(ws, d).len() ==> #[trigger] drop_watcher(ws, d)[i]
            != d,
    decreases ws.len(),
{
    if ws.len() > 0 {
        lemma_drop_watcher_keeps(ws.drop_last(), d);
        let rest = drop_watcher(ws.drop_last(), d);
        let f = drop_watcher(ws, d);
        assert(forall|i: int|
            0 <= i < ws.drop_last().len() ==> #[trigger] ws.drop_last()[i] == ws[i]);
        assert forall|x: usize| x != d implies (f.contains(x) <==> #[trigger] ws.contains(
            x,
        )) by {
            if f.contains(x) {
                let w = choose|w: int| 0 <= w < f.len() && f[w] == x;
                if ws.last() != d && w == f.len() - 1 {
                    assert(ws[ws.len() - 1] == x);
                } else {
                    assert(rest[w] == x);
                    assert(rest.contains(x));
                    assert(ws.drop_last().contains(x));
                    let v = choose|v: int|
                        0 <= v < ws.drop_last().len() && ws.drop_last()[v] == x;
                    assert(ws[v] == x);
                }
            }
            if ws.contains(x) {
                let w = choose|w: int| 0 <= w < ws.len() && ws[w] == x;
                if w == ws.len() - 1 {
                    assert(f[f.len() - 1] == x);
                } else {
                    assert(ws.drop_last()[w] == x);
                    assert(ws.drop_last().contains(x));
                    assert(rest.contains(x));
                    let v = choose|v: int| 0 <= v < rest.len() && rest[v] == x;
                    assert(f[v] == x);
                }
            }
        }
        assert forall|i: int| 0 <= i < f.len() implies #[trigger] f[i] != d by {
            if ws.last() != d && i == f.len() - 1 {
            } else {
                assert(f[i] == rest[i]);
            }
        }
    }
}

/// Dropping an absent watcher changes nothing.
pub proof fn lemma_drop_watcher_absent(ws: Seq<usize>, d: usize)
    requires
        forall|i: int| 0 <= i < ws.len() ==> ws[i] != d,
    ensures
        drop_watcher(ws, d) == ws,
    decreases ws.len(),
{
    if ws.len() > 0 {
        assert(forall|i: int|
            0 <= i < ws.drop_last().len() ==> #[trigger] ws.drop_last()[i] == ws[i]);
        lemma_drop_watcher_absent(ws.drop_last(), d);
        assert(drop_watcher(ws, d) =~= ws);
    }
}

/// Pruning keeps the watchers distinct, and what stays was there before and
/// is not among the dead.
pub proof fn lemma_drop_dead_distinct(ws: Seq<usize>, dead: Seq<usize>)
    requires
        watchers_distinct(ws),
    ensures
        watchers_distinct(drop_dead(ws, dead)),
        forall|i: int|
            0 <= i < drop_dead(ws, dead).len() ==> ws.contains(
                #[trigger] drop_dead(ws, dead)[i],
            ) && !dead.contains(drop_dead(ws, dead)[i]),
    decreases ws.len(),
{
    if ws.len() > 0 {
        assert(forall|i: int|
            0 <= i < ws.drop_last().len() ==> #[trigger] ws.drop_last()[i] == ws[i]);
        assert(watchers_distinct(ws.drop_last()));
        lemma_drop_dead_distinct(ws.drop_last(), dead);
        let rest = drop_dead(ws.drop_last(), dead);
        let f = drop_dead(ws, dead);
        assert forall|i: int| 0 <= i < f.len() implies ws.contains(#[trigger] f[i])
            && !dead.contains(f[i]) by {
            if !dead.contains(ws.last()) && i == f.len() - 1 {
                assert(ws[ws.len() - 1] == f[i]);
            } else {
                assert(f[i] == rest[i]);
                assert(ws.drop_last().contains(rest[i]));
                let v = choose|v: int| 0 <= v < ws.drop_last().len() && ws.drop_last()[v] == rest[i];
                assert(ws[v] == f[i]);
            }
        }
        if !dead.contains(ws.last()) {
            assert forall|a: int, b: int| 0 <= a < b < f.len() implies f[a] != f[b] by {
                if b < f.len() - 1 {
                    assert(f[a] == rest[a] && f[b] == rest[b]);
                } else {
                    assert(f[b] == ws.last());
                    if a < f.len() - 1 {
                        assert(f[a] == rest[a]);
                        assert(ws.drop_last().contains(rest[a]));
                        let v = choose|v: int|
                            0 <= v < ws.drop_last().len() && ws.drop_last()[v] == rest[a];
                        assert(ws[v] == rest[a]);
                        assert(ws[v] != ws[ws.len() - 1]);
                    }
                }
            }
        }
    }
}


/// A pool entry with watcher `id` dropped.
pub open spec fn purge_item(e: ItemV, id: usize) -> ItemV {
    (e.0, drop_watcher(e.1, id))
}

/// The pool with watcher `id` dropped from every entry; entries left with
/// neither value nor watcher disappear.
pub open spec fn pool_purged(m: Map<Seq<u8>, ItemV>, id: usize) -> Map<Seq<u8>, ItemV> {
    Map::new(
        |l: Seq<u8>| m.dom().contains(l) && item_live(purge_item(m[l], id)),
        |l: Seq<u8>| purge_item(m[l], id),
    )
}

/// The purge at the association-list level.
pub open spec fn pool_purged_pairs(s: Seq<(Seq<u8>, ItemV)>, id: usize) -> Seq<(Seq<u8>, ItemV)>
    decreases s.len(),
{
    if s.len() == 0 {
        Seq::empty()
    } else {
        let rest = pool_purged_pairs(s.drop_last(), id);
        let pe = purge_item(s.last().1, id);
        if item_live(pe) {
            rest.push((s.last().0, pe))
        } else {
            rest
        }
    }
}

/// The association-list purge denotes the map-level purge.
pub proof fn lemma_pool_purged_pairs(s: Seq<(Seq<u8>, ItemV)>, id: usize)
    requires
        keys_unique(s),
    ensures
        keys_unique(pool_purged_pairs(s, id)),
        forall|k: Seq<u8>| #[trigger] has_key(pool_purged_pairs(s, id), k) ==> has_key(s, k),
        amap(pool_purged_pairs(s, id)) == pool_purged(amap(s), id),
    decreases s.len(),
{
    if s.len() == 0 {
        assert(amap(pool_purged_pairs(s, id)) =~= pool_purged(amap(s), id));
    } else {
        let s0 = s.drop_last();
        assert(keys_unique(s0)) by {
            assert forall|i: int, j: int| 0 <= i < j < s0.len() implies s0[i].0 != s0[j].0 by {
                assert(s0[i] == s[i] && s0[j] == s[j]);
            }
        }
        lemma_pool_purged_pairs(s0, id);
        lemma_amap_dom::<Seq<u8>, ItemV>(s0);
        lemma_amap_dom::<Seq<u8>, ItemV>(s);
        let p = s.last();
        let pe = purge_item(p.1, id);
        assert(!has_key(s0, p.0)) by {
            if has_key(s0, p.0) {
                let w = choose|w: int| 0 <= w < s0.len() && s0[w].0 == p.0;
                assert(s[w].0 == p.0);
            }
        }
        assert(amap(s) == amap(s0).insert(p.0, p.1));
        assert forall|k: Seq<u8>| #[trigger] has_key(pool_purged_pairs(s, id), k) implies has_key(
            s,
            k,
        ) by {
            let pp = pool_purged_pairs(s, id);
            let w = choose|w: int| 0 <= w < pp.len() && pp[w].0 == k;
            if item_live(pe) && w == pp.len() - 1 {
                assert(s[s.len() - 1].0 == k);
            } else {
                assert(pool_purged_pairs(s0, id)[w].0 == k);
                assert(has_key(pool_purged_pairs(s0, id), k));
                assert(has_key(s0, k));
                let v = choose|v: int| 0 <= v < s0.len() && s0[v].0 == k;
                assert(s[v].0 == k);
            }
        }
        assert(keys_unique(pool_purged_pairs(s, id))) by {
            let pp = pool_purged_pairs(s, id);
            let rest = pool_purged_pairs(s0, id);
            assert forall|i: int, j: int| 0 <= i < j < pp.len() implies pp[i].0 != pp[j].0 by {
                if item_live(pe) && j == pp.len() - 1 {
                    assert(pp[i] == rest[i]);
                    assert(has_key(rest, rest[i].0));
                    assert(has_key(s0, rest[i].0));
                    assert(pp[j].0 == p.0);
                } else {
                    assert(pp[i] == rest[i] && pp[j] == rest[j]);
                }
            }
        }
        lemma_amap_dom::<Seq<u8>, ItemV>(pool_purged_pairs(s0, id));
        if item_live(pe) {
            lemma_amap_push(pool_purged_pairs(s0, id), p.0, pe);
            assert(amap(pool_purged_pairs(s, id)) =~= pool_purged(amap(s), id)) by {
                assert forall|c: Seq<u8>|
                    pool_purged(amap(s), id).dom().contains(c) implies amap(
                    pool_purged_pairs(s, id),
                ).dom().contains(c) && amap(pool_purged_pairs(s, id))[c] == pool_purged(
                    amap(s),
                    id,
                )[c] by {
                    if c == p.0 {
                    } else {
                        assert(amap(s)[c] == amap(s0)[c]);
                        assert(pool_purged(amap(s0), id).dom().contains(c));
                    }
                }
                assert forall|c: Seq<u8>|
                    amap(pool_purged_pairs(s, id)).dom().contains(c) implies pool_purged(
                    amap(s),
                    id,
                ).dom().contains(c) by {
                    if c == p.0 {
                    } else {
                        assert(amap(pool_purged_pairs(s0, id)).dom().contains(c));
                        assert(pool_purged(amap(s0), id).dom().contains(c));
                        assert(amap(s0).dom().contains(c));
                        assert(amap(s).dom().contains(c));
                    }
                }
            }
        } else {
            assert(amap(pool_purged_pairs(s, id)) =~= pool_purged(amap(s), id)) by {
                assert forall|c: Seq<u8>|
                    pool_purged(amap(s), id).dom().contains(c) implies amap(
                    pool_purged_pairs(s, id),
                ).dom().contains(c) && amap(pool_purged_pairs(s, id))[c] == pool_purged(
                    amap(s),
                    id,
                )[c] by {
                    assert(c != p.0);
                    assert(amap(s)[c] == amap(s0)[c]);
                    assert(pool_purged(amap(s0), id).dom().contains(c));
                }
                assert forall|c: Seq<u8>|
                    amap(pool_purged_pairs(s, id)).dom().contains(c) implies pool_purged(
                    amap(s),
                    id,
                ).dom().contains(c) by {
                    assert(amap(pool_purged_pairs(s0, id)).dom().contains(c));
                    assert(pool_purged(amap(s0), id).dom().contains(c));
                    assert(amap(s0).dom().contains(c));
                    assert(amap(s).dom().contains(c));
                    assert(c != p.0) by {
                        if c == p.0 {
                            assert(has_key(s0, c));
                        }
                    }
                }
            }
        }
    }
}

impl Pool {
    /// Drop watcher `watcher` from every entry of the pool: called when the
    /// watching component leaves, so no entry keeps referring to it.
    pub fn unwatch_all(&mut self, watcher: usize)
        requires
            old(self).wf(),
        ensures
            final(self).wf(),
            final(self).discrim@ == old(self).discrim@,
            final(self)@ == pool_purged(old(self)@, watcher),
    {
        let ghost old_pairs = self.pairs();
        let n: usize = self.map.len();
        let mut out: Vec<(Vec<u8>, PoolItem)> = Vec::new();
        let mut i: usize = 0;
        while i < n
            invariant
                n == self.map@.len(),
                0 <= i <= n,
                old_pairs == self.pairs(),
                self.wf(),
                out@.map_values(
                    |p: (Vec<u8>, PoolItem)| (
                        p.0@,
                        (
                            match p.1.value {
                                Option::Some(v) => Option::Some(v@),
                                Option::None => Option::None,
                            },
                            p.1.listener@,
                        ),
                    ),
                ) == pool_purged_pairs(old_pairs.subrange(0, i as int), watcher),
            decreases n - i,
        {
            let ghost ws = self.pairs()[i as int].1.1;
            let mm: usize = self.map[i].1.listener.len();
            let mut kept: Vec<usize> = Vec::new();
            let mut j: usize = 0;
            while j < mm
                invariant
                    i < self.map@.len(),
                    mm == self.map@[i as int].1.listener@.len(),
                    ws == self.map@[i as int].1.listener@,
                    0 <= j <= mm,
                    kept@ == drop_watcher(ws.subrange(0, j as int), watcher),
                decreases mm - j,
            {
                proof {
                    assert(ws.subrange(0, j + 1).drop_last() =~= ws.subrange(0, j as int));
                    assert(ws.subrange(0, j + 1).last() == ws[j as int]);
                }
                let v = self.map[i].1.listener[j];
                if v != watcher {
                    kept.push(v);
                    proof {
                        assert(kept@ =~= drop_watcher(ws.subrange(0, j + 1), watcher));
                    }
                } else {
                    proof {
                        assert(kept@ =~= drop_watcher(ws.subrange(0, j + 1), watcher));
                    }
                }
                j = j + 1;
            }
            proof {
                assert(ws.subrange(0, mm as int) =~= ws);
                assert(old_pairs.subrange(0, i + 1).drop_last() =~= old_pairs.subrange(
                    0,
                    i as int,
                ));
                assert(old_pairs.subrange(0, i + 1).last() == old_pairs[i as int]);
            }
            let has_value = self.map[i].1.value.is_some();
            if has_value || kept.len() > 0 {
                let key = dup_bytes(&self.map[i].0);
                let value = match &self.map[i].1.value {
                    Some(v) => Some(dup_bytes(v)),
                    None => None,
                };
                out.push((key, PoolItem { value, listener: kept }));
                proof {
                    assert(item_live(purge_item(old_pairs[i as int].1, watcher)));
                    assert(out@.map_values(
                        |p: (Vec<u8>, PoolItem)| (
                            p.0@,
                            (
                                match p.1.value {
                                    Option::Some(v) => Option::Some(v@),
                                    Option::None => Option::None,
                                },
                                p.1.listener@,
                            ),
                        ),
                    ) =~= pool_purged_pairs(old_pairs.subrange(0, i + 1), watcher));
                }
            } else {
                proof {
                    assert(!item_live(purge_item(old_pairs[i as int].1, watcher)));
                    assert(out@.map_values(
                        |p: (Vec<u8>, PoolItem)| (
                            p.0@,
                            (
                                match p.1.value {
                                    Option::Some(v) => Option::Some(v@),
                                    Option::None => Option::None,
                                },
                                p.1.listener@,
                            ),
                        ),
                    ) =~= pool_purged_pairs(old_pairs.subrange(0, i + 1), watcher));
                }
            }
            i = i + 1;
        }
        self.map = out;
        proof {
            assert(old_pairs.subrange(0, n as int) =~= old_pairs);
            lemma_pool_purged_pairs(old_pairs, watcher);
            let pp = pool_purged_pairs(old_pairs, watcher);
            lemma_amap_dom::<Seq<u8>, ItemV>(old_pairs);
            assert forall|w: int| 0 <= w < pp.len() implies {
                &&& item_live((#[trigger] pp[w]).1)
                &&& watchers_distinct(pp[w].1.1)
            } by {
                assert(has_key(pp, pp[w].0));
                let v = choose|v: int| 0 <= v < old_pairs.len() && old_pairs[v].0 == pp[w].0;
                lemma_amap_get(old_pairs, v);
                lemma_amap_get(pp, w);
                lemma_amap_dom::<Seq<u8>, ItemV>(pp);
                assert(amap(pp).dom().contains(pp[w].0));
                assert(pool_purged(amap(old_pairs), watcher).dom().contains(pp[w].0));
                assert(pp[w].1 == purge_item(old_pairs[v].1, watcher));
                assert(watchers_distinct(old_pairs[v].1.1));
                assert(drop_watcher(old_pairs[v].1.1, watcher) == drop_dead(
                    old_pairs[v].1.1,
                    seq![watcher],
                )) by {
                    lemma_drop_one_as_dead(old_pairs[v].1.1, watcher);
                }
                lemma_drop_dead_distinct(old_pairs[v].1.1, seq![watcher]);
            }
        }
    }
}

/// Dropping one watcher is pruning against the one-element dead list.
pub proof fn lemma_drop_one_as_dead(ws: Seq<usize>, d: usize)
    ensures
        drop_watcher(ws, d) == drop_dead(ws, seq![d]),
    decreases ws.len(),
{
    if ws.len() > 0 {
        lemma_drop_one_as_dead(ws.drop_last(), d);
        assert(seq![d].contains(ws.last()) <==> ws.last() == d) by {
            if seq![d].contains(ws.last()) {
                let w = choose|w: int| 0 <= w < seq![d].len() && seq![d][w] == ws.last();
            }
            if ws.last() == d {
                assert(seq![d][0] == ws.last());
            }
        }
    }
}

/// Setting an entry and then reading it yields the value just set; clearing
/// it and then reading yields nothing.
pub proof fn lemma_set_get_remove(m: Map<Seq<u8>, ItemV>, label: Seq<u8>, value: Seq<u8>)
    ensures
        value_of(after_set(m, label, value), label) == Some(value),
        value_of(after_remove(m, label), label) is None,
{
}

} // verus!
