//! Channel suppressors: per-component records that block subscribers at or
//! below a priority. Each channel keeps an ordered list of suppressors,
//! sorted descending by priority; a monotonic `state_id` counter changes on
//! every mutation so dispatch can cache the current suppress level.

use vstd::prelude::*;

use crate::assoc::amap;
use crate::assoc::has_key;
use crate::assoc::keys_unique;
use crate::assoc::lemma_amap_dom;
use crate::assoc::lemma_amap_get;
use crate::assoc::lemma_amap_push;
use crate::assoc::lemma_amap_remove;
use crate::assoc::lemma_amap_update;
use crate::channel::SubV;
use crate::channel::Subscription;
use crate::event::views_of_subs;

verus! {

/// One suppressor: a blocking priority and the id handed back to the
/// requester so it can be removed again.
#[derive(Clone, Copy, PartialEq, Eq, Structural, Debug)]
pub struct SuppressItem {
    pub priority: u32,
    pub id: u32,
}

impl SuppressItem {
    /// A suppressor record with the given priority and id.
    pub fn new(priority: u32, id: u32) -> (r: Self)
        ensures
            r == (SuppressItem { priority, id }),
    {
        SuppressItem { priority, id }
    }
}

/// An ordered suppressor list is sorted descending by priority.
pub open spec fn sorted_desc(l: Seq<SuppressItem>) -> bool {
    forall|i: int, j: int| 0 <= i < j < l.len() ==> l[i].priority >= l[j].priority
}

/// Every id in the list is below the freshness bound `n`.
pub open spec fn ids_below(l: Seq<SuppressItem>, n: u32) -> bool {
    forall|i: int| 0 <= i < l.len() ==> l[i].id < n
}

/// The list with `it` placed before the first element of strictly smaller
/// priority: descending order is kept and equal priorities keep insertion
/// order.
pub open spec fn insert_desc(l: Seq<SuppressItem>, it: SuppressItem) -> Seq<SuppressItem>
    decreases l.len(),
{
    if l.len() == 0 {
        seq![it]
    } else if l[0].priority < it.priority {
        seq![it] + l
    } else {
        seq![l[0]] + insert_desc(l.drop_first(), it)
    }
}

/// The first index whose item carries `id`, or -1 when there is none.
pub open spec fn find_id(l: Seq<SuppressItem>, id: u32) -> int
    decreases l.len(),
{
    if l.len() == 0 {
        -1
    } else if l[0].id == id {
        0
    } else {
        let r = find_id(l.drop_first(), id);
        if r == -1 {
            -1
        } else {
            r + 1
        }
    }
}

/// What `find_id` returns: either no element carries the id, or the first
/// index that does.
pub proof fn lemma_find_id(l: Seq<SuppressItem>, id: u32)
    ensures
        find_id(l, id) == -1 ==> forall|i: int| 0 <= i < l.len() ==> l[i].id != id,
        find_id(l, id) != -1 ==> {
            let r = find_id(l, id);
            &&& 0 <= r < l.len()
            &&& l[r].id == id
            &&& forall|i: int| 0 <= i < r ==> l[i].id != id
        },
    decreases l.len(),
{
    if l.len() > 0 && l[0].id != id {
        lemma_find_id(l.drop_first(), id);
        let r = find_id(l.drop_first(), id);
        if r == -1 {
            assert forall|i: int| 0 <= i < l.len() implies l[i].id != id by {
                if i > 0 {
                    assert(l.drop_first()[i - 1] == l[i]);
                }
            }
        } else {
            assert(l.drop_first()[r] == l[r + 1]);
            assert forall|i: int| 0 <= i < r + 1 implies l[i].id != id by {
                if i > 0 {
                    assert(l.drop_first()[i - 1] == l[i]);
                }
            }
        }
    }
}

/// Inserting into a sorted list at the position the implementation finds is
/// exactly `insert_desc`.
pub proof fn lemma_insert_desc_at(l: Seq<SuppressItem>, it: SuppressItem, i: int)
    requires
        sorted_desc(l),
        0 <= i <= l.len(),
        forall|j: int| 0 <= j < i ==> l[j].priority >= it.priority,
        i < l.len() ==> l[i].priority < it.priority,
    ensures
        insert_desc(l, it) == l.insert(i, it),
    decreases l.len(),
{
    if l.len() == 0 {
        assert(insert_desc(l, it) =~= l.insert(0, it));
    } else if i == 0 {
        assert(l[0].priority < it.priority);
        assert(insert_desc(l, it) =~= l.insert(0, it));
    } else {
        assert(l[0].priority >= it.priority);
        assert(l.drop_first().len() == l.len() - 1);
        assert forall|j: int| 0 <= j < i - 1 implies l.drop_first()[j].priority
            >= it.priority by {
            assert(l.drop_first()[j] == l[j + 1]);
        }
        if i - 1 < l.drop_first().len() {
            assert(l.drop_first()[i - 1] == l[i]);
        }
        lemma_insert_desc_at(l.drop_first(), it, i - 1);
        assert(seq![l[0]] + l.drop_first().insert(i - 1, it) =~= l.insert(i, it));
    }
}

/// `insert_desc` keeps the descending order and the freshness bound.
pub proof fn lemma_insert_desc_sorted(l: Seq<SuppressItem>, it: SuppressItem)
    requires
        sorted_desc(l),
    ensures
        sorted_desc(insert_desc(l, it)),
        insert_desc(l, it).len() == l.len() + 1,
        forall|n: u32| ids_below(l, n) && it.id < n ==> ids_below(insert_desc(l, it), n),
        forall|i: int|
            0 <= i < insert_desc(l, it).len() ==> (insert_desc(l, it)[i] == it || exists|j: int|
                0 <= j < l.len() && l[j] == insert_desc(l, it)[i]),
    decreases l.len(),
{
    if l.len() == 0 {
    } else if l[0].priority < it.priority {
        let r = seq![it] + l;
        assert forall|i: int, j: int| 0 <= i < j < r.len() implies r[i].priority
            >= r[j].priority by {
            if i > 0 {
                assert(r[i] == l[i - 1] && r[j] == l[j - 1]);
            } else {
                assert(r[j] == l[j - 1]);
                if j > 1 {
                    assert(l[0].priority >= l[j - 1].priority);
                }
            }
        }
        assert forall|i: int| 0 <= i < r.len() implies (r[i] == it || exists|j: int|
            0 <= j < l.len() && l[j] == r[i]) by {
            if i > 0 {
                assert(l[i - 1] == r[i]);
            }
        }
    } else {
        lemma_insert_desc_sorted(l.drop_first(), it);
        let t = insert_desc(l.drop_first(), it);
        let r = seq![l[0]] + t;
        assert forall|i: int, j: int| 0 <= i < j < r.len() implies r[i].priority
            >= r[j].priority by {
            if i > 0 {
                assert(r[i] == t[i - 1] && r[j] == t[j - 1]);
            } else {
                assert(r[j] == t[j - 1]);
                assert(t[j - 1] == it || exists|k: int|
                    0 <= k < l.drop_first().len() && l.drop_first()[k] == t[j - 1]);
                if t[j - 1] == it {
                    assert(l[0].priority >= it.priority);
                } else {
                    let k = choose|k: int|
                        0 <= k < l.drop_first().len() && l.drop_first()[k] == t[j - 1];
                    assert(l[k + 1] == t[j - 1]);
                    assert(l[0].priority >= l[k + 1].priority);
                }
            }
        }
        assert forall|n: u32| ids_below(l, n) && it.id < n implies ids_below(r, n) by {
            assert(ids_below(l.drop_first(), n)) by {
                assert forall|i: int| 0 <= i < l.drop_first().len() implies l.drop_first()[i].id
                    < n by {
                    assert(l.drop_first()[i] == l[i + 1]);
                }
            }
            assert(ids_below(t, n));
            assert forall|i: int| 0 <= i < r.len() implies r[i].id < n by {
                if i > 0 {
                    assert(r[i] == t[i - 1]);
                }
            }
        }
        assert forall|i: int| 0 <= i < r.len() implies (r[i] == it || exists|j: int|
            0 <= j < l.len() && l[j] == r[i]) by {
            if i == 0 {
                assert(l[0] == r[0]);
            } else {
                assert(r[i] == t[i - 1]);
                if t[i - 1] != it {
                    let k = choose|k: int|
                        0 <= k < l.drop_first().len() && l.drop_first()[k] == t[i - 1];
                    assert(l[k + 1] == r[i]);
                }
            }
        }
    }
}

/// Removing a freshly inserted id restores the list: the heart of the
/// suppress/unsuppress round trip.
pub proof fn lemma_remove_fresh_insert(l: Seq<SuppressItem>, it: SuppressItem)
    requires
        sorted_desc(l),
        forall|i: int| 0 <= i < l.len() ==> l[i].id != it.id,
    ensures
        find_id(insert_desc(l, it), it.id) != -1,
        insert_desc(l, it).remove(find_id(insert_desc(l, it), it.id)) == l,
    decreases l.len(),
{
    if l.len() == 0 {
        assert(insert_desc(l, it) =~= seq![it]);
        assert(seq![it].remove(0) =~= l);
    } else if l[0].priority < it.priority {
        let r = seq![it] + l;
        assert(find_id(r, it.id) == 0);
        assert(r.remove(0) =~= l);
    } else {
        assert(forall|i: int|
            0 <= i < l.drop_first().len() ==> #[trigger] l.drop_first()[i].id == l[i + 1].id);
        lemma_remove_fresh_insert(l.drop_first(), it);
        let t = insert_desc(l.drop_first(), it);
        let r = seq![l[0]] + t;
        assert(r[0] == l[0]);
        assert(l[0].id != it.id);
        assert(r.drop_first() =~= t);
        let ft = find_id(t, it.id);
        lemma_find_id(t, it.id);
        assert(0 <= ft < t.len());
        assert(find_id(r, it.id) == ft + 1);
        assert(r.remove(ft + 1) =~= seq![l[0]] + t.remove(ft));
        assert(seq![l[0]] + l.drop_first() =~= l);
    }
}

/// The suppress level one channel contributes: the top (first) suppressor's
/// priority, when the channel has any suppressor.
pub open spec fn chan_level(m: Map<SubV, Seq<SuppressItem>>, c: SubV) -> Option<u32> {
    if m.dom().contains(c) && m[c].len() > 0 {
        Some(m[c][0].priority)
    } else {
        None
    }
}

/// The maximum of two optional levels; `None` means no suppression.
pub open spec fn opt_max(a: Option<u32>, b: Option<u32>) -> Option<u32> {
    match (a, b) {
        (Some(x), Some(y)) => if x >= y {
            Some(x)
        } else {
            Some(y)
        },
        (Some(x), None) => Some(x),
        (None, Some(y)) => Some(y),
        (None, None) => None,
    }
}

/// The current suppress level for an event published on `chans`: the maximum
/// over the matched channels of each channel's top suppressor priority.
pub open spec fn spec_level(m: Map<SubV, Seq<SuppressItem>>, chans: Seq<SubV>) -> Option<u32>
    decreases chans.len(),
{
    if chans.len() == 0 {
        None
    } else {
        opt_max(spec_level(m, chans.drop_last()), chan_level(m, chans.last()))
    }
}

/// The suppressor map after adding `it` on channel `c`.
pub open spec fn after_suppress(
    m: Map<SubV, Seq<SuppressItem>>,
    c: SubV,
    it: SuppressItem,
) -> Map<SubV, Seq<SuppressItem>> {
    if m.dom().contains(c) {
        m.insert(c, insert_desc(m[c], it))
    } else {
        m.insert(c, seq![it])
    }
}

/// The suppressor map after removing id `id` from channel `c`, and whether
/// anything was removed. A channel left empty disappears from the map.
pub open spec fn after_unsuppress(
    m: Map<SubV, Seq<SuppressItem>>,
    c: SubV,
    id: u32,
) -> (Map<SubV, Seq<SuppressItem>>, bool) {
    if m.dom().contains(c) && find_id(m[c], id) != -1 {
        let l = m[c].remove(find_id(m[c], id));
        if l.len() == 0 {
            (m.remove(c), true)
        } else {
            (m.insert(c, l), true)
        }
    } else {
        (m, false)
    }
}

/// Per-component channel suppressors with a monotonic state counter.
pub struct Suppressors {
    pub channels: Vec<(Subscription, Vec<SuppressItem>)>,
    pub state_id: u32,
    pub next_id: u32,
}

impl Suppressors {
    /// The association pairs, at the mathematical level.
    pub open spec fn pairs(&self) -> Seq<(SubV, Seq<SuppressItem>)> {
        self.channels@.map_values(|p: (Subscription, Vec<SuppressItem>)| (p.0@, p.1@))
    }

    /// The state counter, for cache invalidation across dispatch iterations.
    pub open spec fn spec_state_id(&self) -> u32 {
        self.state_id
    }

    /// The bound below which all suppressor ids lie; the next insert uses it.
    pub open spec fn spec_next_id(&self) -> u32 {
        self.next_id
    }

    /// Well-formed: distinct channels, and every channel holds a non-empty
    /// descending list whose ids are below `next_id`.
    pub open spec fn wf(&self) -> bool {
        &&& keys_unique(self.pairs())
        &&& forall|i: int|
            0 <= i < self.pairs().len() ==> {
                &&& (#[trigger] self.pairs()[i]).1.len() > 0
                &&& sorted_desc(self.pairs()[i].1)
                &&& ids_below(self.pairs()[i].1, self.next_id)
            }
    }
}

impl View for Suppressors {
    type V = Map<SubV, Seq<SuppressItem>>;

    open spec fn view(&self) -> Map<SubV, Seq<SuppressItem>> {
        amap(self.pairs())
    }
}

impl Suppressors {
    /// An empty suppressor table. Ids start at 1.
    pub fn new() -> (r: Suppressors)
        ensures
            r.wf(),
            r@ == Map::<SubV, Seq<SuppressItem>>::empty(),
            r.spec_state_id() == 0,
            r.spec_next_id() == 1,
    {
        let r = Suppressors { channels: Vec::new(), state_id: 0, next_id: 1 };
        proof {
            assert(r.pairs() =~= Seq::<(SubV, Seq<SuppressItem>)>::empty());
        }
        r
    }

    /// The index of `subscription`'s entry, if any.
    fn find_channel(&self, subscription: &Subscription) -> (r: Option<usize>)
        ensures
            match r {
                Some(i) => i < self.pairs().len() && self.pairs()[i as int].0 == subscription@,
                None => !has_key(self.pairs(), subscription@),
            },
    {
        let n: usize = self.channels.len();
        let mut i: usize = 0;
        while i < n
            invariant
                n == self.channels@.len(),
                n == self.pairs().len(),
                0 <= i <= n,
                forall|j: int| 0 <= j < i ==> self.pairs()[j].0 != subscription@,
            decreases n - i,
        {
            if self.channels[i].0.matches(subscription) {
                proof {
                    assert(self.pairs()[i as int].0 == self.channels@[i as int].0@);
                }
                return Some(i);
            }
            proof {
                assert(self.pairs()[i as int].0 == self.channels@[i as int].0@);
            }
            i = i + 1;
        }
        None
    }

    /// Add a suppressor on `subscription` with `priority`; the fresh id that
    /// removes it again is returned. The list stays sorted descending, ties
    /// keep insertion order, and the state counter moves.
    pub fn insert(&mut self, subscription: Subscription, priority: u32) -> (id: u32)
        requires
            old(self).wf(),
            old(self).spec_state_id() < u32::MAX,
            old(self).spec_next_id() < u32::MAX,
        ensures
            final(self).wf(),
            id == old(self).spec_next_id(),
            final(self)@ == after_suppress(old(self)@, subscription@, SuppressItem { priority, id }),
            final(self).spec_state_id() == old(self).spec_state_id() + 1,
            final(self).spec_next_id() == old(self).spec_next_id() + 1,
    {
        self.state_id = self.state_id + 1;
        let id = self.next_id;
        self.next_id = self.next_id + 1;
        let item = SuppressItem { priority, id };
        proof {
            lemma_amap_dom::<SubV, Seq<SuppressItem>>(self.pairs());
        }
        match self.find_channel(&subscription) {
            Some(ci) => {
                let ghost old_pairs = self.pairs();
                let ghost old_list = self.pairs()[ci as int].1;
                let (sub_key, mut list) = self.channels.remove(ci);
                // find the first position with strictly smaller priority
                let n: usize = list.len();
                let mut pos: usize = 0;
                while pos < n && list[pos].priority >= priority
                    invariant
                        n == list@.len(),
                        0 <= pos <= n,
                        list@ == old_list,
                        forall|j: int| 0 <= j < pos ==> list@[j].priority >= priority,
                    decreases n - pos,
                {
                    pos = pos + 1;
                }
                proof {
                    lemma_amap_get(old_pairs, ci as int);
                    lemma_insert_desc_at(old_list, item, pos as int);
                    lemma_insert_desc_sorted(old_list, item);
                }
                list.insert(pos, item);
                self.channels.insert(ci, (sub_key, list));
                proof {
                    let new_pairs = self.pairs();
                    assert(new_pairs =~= old_pairs.update(
                        ci as int,
                        (old_pairs[ci as int].0, insert_desc(old_list, item)),
                    ));
                    lemma_amap_update(old_pairs, ci as int, insert_desc(old_list, item));
                    assert forall|i: int| 0 <= i < new_pairs.len() implies {
                        &&& (#[trigger] new_pairs[i]).1.len() > 0
                        &&& sorted_desc(new_pairs[i].1)
                        &&& ids_below(new_pairs[i].1, self.next_id)
                    } by {
                        if i != ci {
                            assert(new_pairs[i] == old_pairs[i]);
                            assert(ids_below(old_pairs[i].1, old(self).next_id));
                            assert forall|k: int|
                                0 <= k < new_pairs[i].1.len() implies new_pairs[i].1[k].id
                                < self.next_id by {
                                assert(old_pairs[i].1[k].id < old(self).next_id);
                            }
                        } else {
                            assert(ids_below(old_list, old(self).next_id));
                            assert forall|k: int|
                                0 <= k < old_list.len() implies old_list[k].id
                                < self.next_id by {
                                assert(old_list[k].id < old(self).next_id);
                            }
                            assert(ids_below(old_list, self.next_id));
                        }
                    }
                }
                id
            },
            None => {
                let ghost old_pairs = self.pairs();
                let mut list: Vec<SuppressItem> = Vec::new();
                list.push(item);
                self.channels.push((subscription, list));
                proof {
                    assert(list@ =~= seq![item]);
                    let new_pairs = self.pairs();
                    assert(new_pairs =~= old_pairs.push((new_pairs.last().0, seq![item])));
                    lemma_amap_push(old_pairs, new_pairs.last().0, seq![item]);
                    assert forall|i: int| 0 <= i < new_pairs.len() implies {
                        &&& (#[trigger] new_pairs[i]).1.len() > 0
                        &&& sorted_desc(new_pairs[i].1)
                        &&& ids_below(new_pairs[i].1, self.next_id)
                    } by {
                        if i < new_pairs.len() - 1 {
                            assert(new_pairs[i] == old_pairs[i]);
                            assert(ids_below(old_pairs[i].1, old(self).next_id));
                            assert forall|k: int|
                                0 <= k < new_pairs[i].1.len() implies new_pairs[i].1[k].id
                                < self.next_id by {
                                assert(old_pairs[i].1[k].id < old(self).next_id);
                            }
                        }
                    }
                    assert(keys_unique(new_pairs)) by {
                        assert forall|i: int, j: int|
                            0 <= i < j < new_pairs.len() implies new_pairs[i].0
                            != new_pairs[j].0 by {
                            if j == new_pairs.len() - 1 {
                                assert(new_pairs[i] == old_pairs[i]);
                                assert(!has_key(old_pairs, subscription@));
                            } else {
                                assert(new_pairs[i] == old_pairs[i]);
                                assert(new_pairs[j] == old_pairs[j]);
                            }
                        }
                    }
                }
                id
            },
        }
    }

    /// Remove the suppressor with `id` from `subscription`'s channel;
    /// returns whether one was removed. A channel left empty disappears.
    pub fn remove(&mut self, subscription: Subscription, id: u32) -> (r: bool)
        requires
            old(self).wf(),
            old(self).spec_state_id() < u32::MAX,
        ensures
            final(self).wf(),
            r == after_unsuppress(old(self)@, subscription@, id).1,
            final(self)@ == after_unsuppress(old(self)@, subscription@, id).0,
            final(self).spec_state_id() == old(self).spec_state_id() + 1,
            final(self).spec_next_id() == old(self).spec_next_id(),
    {
        self.state_id = self.state_id + 1;
        proof {
            lemma_amap_dom::<SubV, Seq<SuppressItem>>(self.pairs());
        }
        match self.find_channel(&subscription) {
            Some(ci) => {
                let ghost old_pairs = self.pairs();
                let ghost old_list = self.pairs()[ci as int].1;
                proof {
                    lemma_amap_get(old_pairs, ci as int);
                    lemma_find_id(old_list, id);
                }
                let (sub_key, mut list) = self.channels.remove(ci);
                let n: usize = list.len();
                let mut pos: usize = 0;
                while pos < n && list[pos].id != id
                    invariant
                        n == list@.len(),
                        0 <= pos <= n,
                        list@ == old_list,
                        forall|j: int| 0 <= j < pos ==> list@[j].id != id,
                    decreases n - pos,
                {
                    pos = pos + 1;
                }
                if pos == n {
                    // no such id: put the entry back unchanged
                    self.channels.insert(ci, (sub_key, list));
                    proof {
                        assert(find_id(old_list, id) == -1);
                        assert(self.pairs() =~= old_pairs);
                    }
                    false
                } else {
                    proof {
                        assert(find_id(old_list, id) == pos as int);
                    }
                    list.remove(pos);
                    if list.len() == 0 {
                        proof {
                            lemma_amap_remove(old_pairs, ci as int);
                            assert(self.pairs() =~= old_pairs.remove(ci as int));
                            assert forall|i: int| 0 <= i < self.pairs().len() implies {
                                &&& (#[trigger] self.pairs()[i]).1.len() > 0
                                &&& sorted_desc(self.pairs()[i].1)
                                &&& ids_below(self.pairs()[i].1, self.next_id)
                            } by {
                                if i < ci {
                                    assert(self.pairs()[i] == old_pairs[i]);
                                } else {
                                    assert(self.pairs()[i] == old_pairs[i + 1]);
                                }
                            }
                            assert(keys_unique(self.pairs())) by {
                                assert forall|i: int, j: int|
                                    0 <= i < j < self.pairs().len() implies self.pairs()[i].0
                                    != self.pairs()[j].0 by {
                                    let i2 = if i < ci {
                                        i
                                    } else {
                                        i + 1
                                    };
                                    let j2 = if j < ci {
                                        j
                                    } else {
                                        j + 1
                                    };
                                    assert(self.pairs()[i] == old_pairs[i2]);
                                    assert(self.pairs()[j] == old_pairs[j2]);
                                }
                            }
                        }
                        true
                    } else {
                        self.channels.insert(ci, (sub_key, list));
                        proof {
                            let new_list = old_list.remove(pos as int);
                            assert(self.pairs() =~= old_pairs.update(
                                ci as int,
                                (old_pairs[ci as int].0, new_list),
                            ));
                            lemma_amap_update(old_pairs, ci as int, new_list);
                            assert forall|i: int| 0 <= i < self.pairs().len() implies {
                                &&& (#[trigger] self.pairs()[i]).1.len() > 0
                                &&& sorted_desc(self.pairs()[i].1)
                                &&& ids_below(self.pairs()[i].1, self.next_id)
                            } by {
                                if i != ci {
                                    assert(self.pairs()[i] == old_pairs[i]);
                                } else {
                                    assert(sorted_desc(old_list));
                                    assert forall|a: int, b: int|
                                        0 <= a < b < new_list.len() implies new_list[a].priority
                                        >= new_list[b].priority by {
                                        let a2 = if a < pos {
                                            a
                                        } else {
                                            a + 1
                                        };
                                        let b2 = if b < pos {
                                            b
                                        } else {
                                            b + 1
                                        };
                                        assert(new_list[a] == old_list[a2]);
                                        assert(new_list[b] == old_list[b2]);
                                    }
                                    assert forall|k: int|
                                        0 <= k < new_list.len() implies new_list[k].id
                                        < self.next_id by {
                                        let k2 = if k < pos {
                                            k
                                        } else {
                                            k + 1
                                        };
                                        assert(new_list[k] == old_list[k2]);
                                        assert(ids_below(old_list, self.next_id));
                                    }
                                }
                            }
                        }
                        true
                    }
                }
            },
            None => {
                false
            },
        }
    }

    /// The current suppress level over the given channels: the maximum of the
    /// top suppressor priority of each channel present.
    pub fn suppress_level(&self, channels: &Vec<Subscription>) -> (r: Option<u32>)
        requires
            self.wf(),
        ensures
            r == spec_level(self@, views_of_subs(channels@)),
    {
        let ghost chans = views_of_subs(channels@);
        let n: usize = channels.len();
        let mut acc: Option<u32> = None;
        let mut i: usize = 0;
        while i < n
            invariant
                self.wf(),
                n == channels@.len(),
                chans == views_of_subs(channels@),
                0 <= i <= n,
                acc == spec_level(self@, chans.subrange(0, i as int)),
            decreases n - i,
        {
            let here: Option<u32> = match self.find_channel(&channels[i]) {
                Some(ci) => {
                    proof {
                        lemma_amap_get(self.pairs(), ci as int);
                    }
                    Some(self.channels[ci].1[0].priority)
                },
                None => {
                    proof {
                        lemma_amap_dom::<SubV, Seq<SuppressItem>>(self.pairs());
                    }
                    None
                },
            };
            proof {
                assert(here == chan_level(self@, chans[i as int]));
            }
            acc = match (acc, here) {
                (Some(x), Some(y)) => if x >= y {
                    Some(x)
                } else {
                    Some(y)
                },
                (Some(x), None) => Some(x),
                (None, Some(y)) => Some(y),
                (None, None) => None,
            };
            proof {
                assert(chans.subrange(0, i + 1).drop_last() =~= chans.subrange(0, i as int));
                assert(chans.subrange(0, i + 1).last() == chans[i as int]);
            }
            i = i + 1;
        }
        proof {
            assert(chans.subrange(0, n as int) =~= chans);
        }
        acc
    }

    /// The state counter: it moves on every mutation, never backwards.
    pub fn state_id(&self) -> (r: u32)
        ensures
            r == self.spec_state_id(),
    {
        self.state_id
    }
}

/// Suppressor lists are sorted descending by priority in every well-formed
/// table: the ordering invariant, stated on its own.
pub proof fn lemma_suppressors_sorted(s: Suppressors)
    requires
        s.wf(),
    ensures
        forall|c: SubV| s@.dom().contains(c) ==> sorted_desc(#[trigger] s@[c]),
{
    lemma_amap_dom::<SubV, Seq<SuppressItem>>(s.pairs());
    assert forall|c: SubV| s@.dom().contains(c) implies sorted_desc(#[trigger] s@[c]) by {
        let i = choose|i: int| 0 <= i < s.pairs().len() && s.pairs()[i].0 == c;
        lemma_amap_get(s.pairs(), i);
    }
}

/// Suppressing a channel and then unsuppressing the returned id restores the
/// suppressor map exactly.
pub proof fn lemma_suppress_unsuppress(
    m: Map<SubV, Seq<SuppressItem>>,
    c: SubV,
    it: SuppressItem,
)
    requires
        m.dom().contains(c) ==> {
            &&& m[c].len() > 0
            &&& sorted_desc(m[c])
            &&& forall|i: int| 0 <= i < m[c].len() ==> m[c][i].id != it.id
        },
    ensures
        after_unsuppress(after_suppress(m, c, it), c, it.id) == (m, true),
{
    if m.dom().contains(c) {
        lemma_remove_fresh_insert(m[c], it);
        let l2 = insert_desc(m[c], it);
        let m2 = m.insert(c, l2);
        assert(m2[c] == l2);
        assert(l2.remove(find_id(l2, it.id)) == m[c]);
        assert(l2.len() == m[c].len() + 1) by {
            lemma_insert_desc_sorted(m[c], it);
        }
        assert(m2.insert(c, m[c]) =~= m);
    } else {
        let l2 = seq![it];
        assert(insert_desc(Seq::<SuppressItem>::empty(), it) == l2);
        let m2 = after_suppress(m, c, it);
        assert(m2 == m.insert(c, l2));
        assert(find_id(l2, it.id) == 0);
        assert(l2.remove(0) =~= Seq::<SuppressItem>::empty());
        assert(m2.remove(c) =~= m);
    }
}

} // verus!
