//! Passes: the subscription registry. Each channel maps to a membership set
//! of subscriber ids together with an ordered list of (id, priority) items,
//! kept descending by priority; a subscriber with no priority sorts after
//! all subscribers with one, and equal priorities keep insertion order.

use vstd::prelude::*;

use crate::assoc::amap;
use crate::assoc::has_key;
use crate::assoc::keys_unique;
use crate::assoc::lemma_amap_dom;
use crate::assoc::lemma_amap_get;
use crate::assoc::lemma_amap_push;
use crate::assoc::lemma_amap_remove;
use crate::assoc::lemma_amap_update;
use crate::channel::SubV;
use crate::channel::Subscription;
use crate::event::views_of_subs;

verus! {

/// One pass: a subscriber id bound to a channel at a priority.
#[derive(Clone, Copy, Debug)]
pub struct PassItem {
    pub id: usize,
    pub priority: Option<u32>,
}

impl PassItem {
    pub fn new(id: usize, priority: Option<u32>) -> (r: Self)
        ensures
            r == (PassItem { id, priority }),
    {
        PassItem { id, priority }
    }
}

/// Priority order: `a` is strictly below `b`. No priority sorts below every
/// priority.
pub open spec fn prio_lt(a: Option<u32>, b: Option<u32>) -> bool {
    match (a, b) {
        (Option::None, Option::Some(_)) => true,
        (Option::Some(x), Option::Some(y)) => x < y,
        _ => false,
    }
}

/// An ordered pass list: descending, no element strictly below a later one.
pub open spec fn sorted_pass(l: Seq<PassItem>) -> bool {
    forall|i: int, j: int| 0 <= i < j < l.len() ==> !prio_lt(l[i].priority, l[j].priority)
}

/// Some item carries `id`.
pub open spec fn has_id(l: Seq<PassItem>, id: usize) -> bool {
    exists|i: int| 0 <= i < l.len() && l[i].id == id
}

/// No two items carry the same id.
pub open spec fn pass_ids_distinct(l: Seq<PassItem>) -> bool {
    forall|i: int, j: int| 0 <= i < j < l.len() ==> l[i].id != l[j].id
}

/// The list with `it` placed before the first element strictly below it:
/// descending order is kept and equal priorities keep insertion order.
pub open spec fn insert_pass(l: Seq<PassItem>, it: PassItem) -> Seq<PassItem>
    decreases l.len(),
{
    if l.len() == 0 {
        seq![it]
    } else if prio_lt(l[0].priority, it.priority) {
        seq![it] + l
    } else {
        seq![l[0]] + insert_pass(l.drop_first(), it)
    }
}

/// The first index whose item carries `id`, or -1 when there is none.
pub open spec fn find_pass(l: Seq<PassItem>, id: usize) -> int
    decreases l.len(),
{
    if l.len() == 0 {
        -1
    } else if l[0].id == id {
        0
    } else {
        let r = find_pass(l.drop_first(), id);
        if r == -1 {
            -1
        } else {
            r + 1
        }
    }
}

pub proof fn lemma_find_pass(l: Seq<PassItem>, id: usize)
    ensures
        find_pass(l, id) == -1 ==> forall|i: int| 0 <= i < l.len() ==> l[i].id != id,
        find_pass(l, id) != -1 ==> {
            let r = find_pass(l, id);
            &&& 0 <= r < l.len()
            &&& l[r].id == id
            &&& forall|i: int| 0 <= i < r ==> l[i].id != id
        },
    decreases l.len(),
{
    if l.len() > 0 && l[0].id != id {
        lemma_find_pass(l.drop_first(), id);
        let r = find_pass(l.drop_first(), id);
        if r == -1 {
            assert forall|i: int| 0 <= i < l.len() implies l[i].id != id by {
                if i > 0 {
                    assert(l.drop_first()[i - 1] == l[i]);
                }
            }
        } else {
            assert(l.drop_first()[r] == l[r + 1]);
            assert forall|i: int| 0 <= i < r + 1 implies l[i].id != id by {
                if i > 0 {
                    assert(l.drop_first()[i - 1] == l[i]);
                }
            }
        }
    }
}

/// Inserting at the position the implementation finds is `insert_pass`.
pub proof fn lemma_insert_pass_at(l: Seq<PassItem>, it: PassItem, i: int)
    requires
        sorted_pass(l),
        0 <= i <= l.len(),
        forall|j: int| 0 <= j < i ==> !prio_lt(l[j].priority, it.priority),
        i < l.len() ==> prio_lt(l[i].priority, it.priority),
    ensures
        insert_pass(l, it) == l.insert(i, it),
    decreases l.len(),
{
    if l.len() == 0 {
        assert(insert_pass(l, it) =~= l.insert(0, it));
    } else if i == 0 {
        assert(insert_pass(l, it) =~= l.insert(0, it));
    } else {
        assert(!prio_lt(l[0].priority, it.priority));
        assert forall|j: int| 0 <= j < i - 1 implies !prio_lt(
            l.drop_first()[j].priority,
            it.priority,
        ) by {
            assert(l.drop_first()[j] == l[j + 1]);
        }
        if i - 1 < l.drop_first().len() {
            assert(l.drop_first()[i - 1] == l[i]);
        }
        lemma_insert_pass_at(l.drop_first(), it, i - 1);
        assert(seq![l[0]] + l.drop_first().insert(i - 1, it) =~= l.insert(i, it));
    }
}

/// `insert_pass` keeps the order, adds one element, and its elements are the
/// old ones plus `it`.
pub proof fn lemma_insert_pass_sorted(l: Seq<PassItem>, it: PassItem)
    requires
        sorted_pass(l),
    ensures
        sorted_pass(insert_pass(l, it)),
        insert_pass(l, it).len() == l.len() + 1,
        forall|i: int|
            0 <= i < insert_pass(l, it).len() ==> (insert_pass(l, it)[i] == it || exists|j: int|
                0 <= j < l.len() && l[j] == insert_pass(l, it)[i]),
        forall|id: usize| #[trigger] has_id(insert_pass(l, it), id) <==> has_id(l, id) || id
            == it.id,
    decreases l.len(),
{
    let r = insert_pass(l, it);
    if l.len() == 0 {
        assert(r =~= seq![it]);
        assert forall|id: usize| #[trigger] has_id(r, id) implies has_id(l, id) || id
            == it.id by {
            let i = choose|i: int| 0 <= i < r.len() && r[i].id == id;
        }
        assert forall|id: usize| has_id(l, id) || id == it.id implies #[trigger] has_id(
            r,
            id,
        ) by {
            assert(r[0].id == it.id);
        }
    } else if prio_lt(l[0].priority, it.priority) {
        assert forall|i: int, j: int| 0 <= i < j < r.len() implies !prio_lt(
            r[i].priority,
            r[j].priority,
        ) by {
            if i > 0 {
                assert(r[i] == l[i - 1] && r[j] == l[j - 1]);
            } else {
                assert(r[j] == l[j - 1]);
                if j > 1 {
                    assert(!prio_lt(l[0].priority, l[j - 1].priority));
                }
            }
        }
        assert forall|i: int| 0 <= i < r.len() implies (r[i] == it || exists|j: int|
            0 <= j < l.len() && l[j] == r[i]) by {
            if i > 0 {
                assert(l[i - 1] == r[i]);
            }
        }
        assert forall|id: usize| #[trigger] has_id(r, id) implies has_id(l, id) || id
            == it.id by {
            let i = choose|i: int| 0 <= i < r.len() && r[i].id == id;
            if i > 0 {
                assert(l[i - 1].id == id);
            }
        }
        assert forall|id: usize| has_id(l, id) || id == it.id implies #[trigger] has_id(
            r,
            id,
        ) by {
            if id == it.id {
                assert(r[0].id == id);
            } else {
                let i = choose|i: int| 0 <= i < l.len() && l[i].id == id;
                assert(r[i + 1].id == id);
            }
        }
    } else {
        lemma_insert_pass_sorted(l.drop_first(), it);
        let t = insert_pass(l.drop_first(), it);
        assert(r =~= seq![l[0]] + t);
        assert forall|i: int, j: int| 0 <= i < j < r.len() implies !prio_lt(
            r[i].priority,
            r[j].priority,
        ) by {
            if i > 0 {
                assert(r[i] == t[i - 1] && r[j] == t[j - 1]);
            } else {
                assert(r[j] == t[j - 1]);
                assert(t[j - 1] == it || exists|k: int|
                    0 <= k < l.drop_first().len() && l.drop_first()[k] == t[j - 1]);
                if t[j - 1] == it {
                    assert(!prio_lt(l[0].priority, it.priority));
                } else {
                    let k = choose|k: int|
                        0 <= k < l.drop_first().len() && l.drop_first()[k] == t[j - 1];
                    assert(l[k + 1] == t[j - 1]);
                    assert(!prio_lt(l[0].priority, l[k + 1].priority));
                }
            }
        }
        assert forall|i: int| 0 <= i < r.len() implies (r[i] == it || exists|j: int|
            0 <= j < l.len() && l[j] == r[i]) by {
            if i == 0 {
                assert(l[0] == r[0]);
            } else {
                assert(r[i] == t[i - 1]);
                if t[i - 1] != it {
                    let k = choose|k: int|
                        0 <= k < l.drop_first().len() && l.drop_first()[k] == t[i - 1];
                    assert(l[k + 1] == r[i]);
                }
            }
        }
        assert forall|id: usize| #[trigger] has_id(r, id) implies has_id(l, id) || id
            == it.id by {
            let i = choose|i: int| 0 <= i < r.len() && r[i].id == id;
            if i == 0 {
                assert(l[0].id == id);
            } else {
                assert(has_id(t, id));
                if !(id == it.id) {
                    assert(has_id(l.drop_first(), id));
                    let k = choose|k: int|
                        0 <= k < l.drop_first().len() && l.drop_first()[k].id == id;
                    assert(l[k + 1].id == id);
                }
            }
        }
        assert forall|id: usize| has_id(l, id) || id == it.id implies #[trigger] has_id(
            r,
            id,
        ) by {
            if id == it.id {
                assert(has_id(t, id));
                let k = choose|k: int| 0 <= k < t.len() && t[k].id == id;
                assert(r[k + 1].id == id);
            } else {
                let i = choose|i: int| 0 <= i < l.len() && l[i].id == id;
                if i == 0 {
                    assert(r[0].id == id);
                } else {
                    assert(l.drop_first()[i - 1].id == id);
                    assert(has_id(l.drop_first(), id));
                    assert(has_id(t, id));
                    let k = choose|k: int| 0 <= k < t.len() && t[k].id == id;
                    assert(r[k + 1].id == id);
                }
            }
        }
    }
}

/// Removing a freshly inserted id restores the ordered list.
pub proof fn lemma_remove_fresh_pass(l: Seq<PassItem>, it: PassItem)
    requires
        sorted_pass(l),
        forall|i: int| 0 <= i < l.len() ==> l[i].id != it.id,
    ensures
        find_pass(insert_pass(l, it), it.id) != -1,
        insert_pass(l, it).remove(find_pass(insert_pass(l, it), it.id)) == l,
    decreases l.len(),
{
    if l.len() == 0 {
        assert(insert_pass(l, it) =~= seq![it]);
        assert(seq![it].remove(0) =~= l);
    } else if prio_lt(l[0].priority, it.priority) {
        let r = seq![it] + l;
        assert(find_pass(r, it.id) == 0);
        assert(r.remove(0) =~= l);
    } else {
        assert(forall|i: int|
            0 <= i < l.drop_first().len() ==> #[trigger] l.drop_first()[i].id == l[i + 1].id);
        lemma_remove_fresh_pass(l.drop_first(), it);
        let t = insert_pass(l.drop_first(), it);
        let r = seq![l[0]] + t;
        assert(r[0] == l[0]);
        assert(l[0].id != it.id);
        assert(r.drop_first() =~= t);
        let ft = find_pass(t, it.id);
        lemma_find_pass(t, it.id);
        assert(0 <= ft < t.len());
        assert(find_pass(r, it.id) == ft + 1);
        assert(r.remove(ft + 1) =~= seq![l[0]] + t.remove(ft));
        assert(seq![l[0]] + l.drop_first() =~= l);
    }
}

/// One channel's registry entry: the membership index and the ordered list.
pub struct PassEntry {
    pub members: Vec<usize>,
    pub items: Vec<PassItem>,
}

/// A well-formed entry: distinct members, distinct item ids, the same
/// elements in both, and the list ordered.
pub open spec fn entry_wf(e: (Seq<usize>, Seq<PassItem>)) -> bool {
    &&& e.0.no_duplicates()
    &&& forall|i: int, j: int| 0 <= i < j < e.1.len() ==> e.1[i].id != e.1[j].id
    &&& forall|id: usize| #[trigger] e.0.contains(id) <==> has_id(e.1, id)
    &&& sorted_pass(e.1)
    &&& e.0.len() > 0
    &&& e.1.len() > 0
}

/// The subscription registry: channel -> (membership set, ordered list).
pub struct Passes {
    pub channels: Vec<(Subscription, PassEntry)>,
}

impl Passes {
    /// The association pairs at the mathematical level.
    pub open spec fn pairs(&self) -> Seq<(SubV, (Seq<usize>, Seq<PassItem>))> {
        self.channels@.map_values(
            |p: (Subscription, PassEntry)| (p.0@, (p.1.members@, p.1.items@)),
        )
    }

    pub open spec fn wf(&self) -> bool {
        &&& keys_unique(self.pairs())
        &&& forall|i: int| 0 <= i < self.pairs().len() ==> entry_wf((#[trigger] self.pairs()[i]).1)
    }
}

impl View for Passes {
    type V = Map<SubV, (Seq<usize>, Seq<PassItem>)>;

    open spec fn view(&self) -> Map<SubV, (Seq<usize>, Seq<PassItem>)> {
        amap(self.pairs())
    }
}

/// The registry after subscribing `it` on channel `c`, and whether it was
/// newly added (an id already subscribed is left unchanged).
pub open spec fn after_subscribe(
    m: Map<SubV, (Seq<usize>, Seq<PassItem>)>,
    c: SubV,
    it: PassItem,
) -> (Map<SubV, (Seq<usize>, Seq<PassItem>)>, bool) {
    if m.dom().contains(c) {
        if m[c].0.contains(it.id) {
            (m, false)
        } else {
            (m.insert(c, (m[c].0.push(it.id), insert_pass(m[c].1, it))), true)
        }
    } else {
        (m.insert(c, (seq![it.id], seq![it])), true)
    }
}

/// The registry after unsubscribing `id` from channel `c`, and whether it
/// was subscribed. A channel left empty disappears.
pub open spec fn after_unsubscribe(
    m: Map<SubV, (Seq<usize>, Seq<PassItem>)>,
    c: SubV,
    id: usize,
) -> (Map<SubV, (Seq<usize>, Seq<PassItem>)>, bool) {
    if m.dom().contains(c) && m[c].0.contains(id) {
        let ms = m[c].0.remove_value(id);
        let its = m[c].1.remove(find_pass(m[c].1, id));
        if its.len() == 0 {
            (m.remove(c), true)
        } else {
            (m.insert(c, (ms, its)), true)
        }
    } else {
        (m, false)
    }
}

impl Passes {
    /// An empty registry.
    pub fn new() -> (r: Passes)
        ensures
            r.wf(),
            r@ == Map::<SubV, (Seq<usize>, Seq<PassItem>)>::empty(),
    {
        let r = Passes { channels: Vec::new() };
        proof {
            assert(r.pairs() =~= Seq::<(SubV, (Seq<usize>, Seq<PassItem>))>::empty());
        }
        r
    }

    /// The index of `subscription`'s entry, if any.
    fn find_channel(&self, subscription: &Subscription) -> (r: Option<usize>)
        ensures
            match r {
                Some(i) => i < self.pairs().len() && self.pairs()[i as int].0 == subscription@,
                None => !has_key(self.pairs(), subscription@),
            },
    {
        let n: usize = self.channels.len();
        let mut i: usize = 0;
        while i < n
            invariant
                n == self.channels@.len(),
                n == self.pairs().len(),
                0 <= i <= n,
                forall|j: int| 0 <= j < i ==> self.pairs()[j].0 != subscription@,
            decreases n - i,
        {
            if self.channels[i].0.matches(subscription) {
                proof {
                    assert(self.pairs()[i as int].0 == self.channels@[i as int].0@);
                }
                return Some(i);
            }
            proof {
                assert(self.pairs()[i as int].0 == self.channels@[i as int].0@);
            }
            i = i + 1;
        }
        None
    }

    /// Subscribe `item` on `subscription`. Returns false when the id was
    /// already subscribed there (nothing changes); otherwise the item enters
    /// the ordered list at its priority position, after all equal priorities.
    pub fn subscribe(&mut self, subscription: Subscription, item: PassItem) -> (r: bool)
        requires
            old(self).wf(),
        ensures
            final(self).wf(),
            r == after_subscribe(old(self)@, subscription@, item).1,
            final(self)@ == after_subscribe(old(self)@, subscription@, item).0,
    {
        proof {
            lemma_amap_dom::<SubV, (Seq<usize>, Seq<PassItem>)>(self.pairs());
        }
        match self.find_channel(&subscription) {
            Some(ci) => {
                let ghost old_pairs = self.pairs();
                let ghost old_entry = self.pairs()[ci as int].1;
                proof {
                    lemma_amap_get(old_pairs, ci as int);
                }
                // already a member?
                let n_m: usize = self.channels[ci].1.members.len();
                let mut k: usize = 0;
                while k < n_m && self.channels[ci].1.members[k] != item.id
                    invariant
                        ci < self.channels@.len(),
                        n_m == self.channels@[ci as int].1.members@.len(),
                        0 <= k <= n_m,
                        forall|j: int|
                            0 <= j < k ==> self.channels@[ci as int].1.members@[j] != item.id,
                    decreases n_m - k,
                {
                    k = k + 1;
                }
                if k < n_m {
                    proof {
                        assert(old_entry.0.contains(item.id));
                    }
                    return false;
                }
                proof {
                    assert(forall|j: int|
                        0 <= j < old_entry.0.len() ==> old_entry.0[j] != item.id);
                    assert(!old_entry.0.contains(item.id));
                }
                let (sub_key, mut entry) = self.channels.remove(ci);
                entry.members.push(item.id);
                let n: usize = entry.items.len();
                let mut pos: usize = 0;
                while pos < n && !prio_lt_exec(&entry.items[pos].priority, &item.priority)
                    invariant
                        n == entry.items@.len(),
                        entry.items@ == old_entry.1,
                        0 <= pos <= n,
                        forall|j: int|
                            0 <= j < pos ==> !prio_lt(entry.items@[j].priority, item.priority),
                    decreases n - pos,
                {
                    pos = pos + 1;
                }
                proof {
                    assert(entry_wf(old_entry));
                    lemma_insert_pass_at(old_entry.1, item, pos as int);
                    lemma_insert_pass_sorted(old_entry.1, item);
                }
                entry.items.insert(pos, item);
                self.channels.insert(ci, (sub_key, entry));
                proof {
                    let new_entry = (old_entry.0.push(item.id), insert_pass(old_entry.1, item));
                    let new_pairs = self.pairs();
                    assert(new_pairs =~= old_pairs.update(
                        ci as int,
                        (old_pairs[ci as int].0, new_entry),
                    ));
                    lemma_amap_update(old_pairs, ci as int, new_entry);
                    assert(entry_wf(new_entry)) by {
                        assert(old_entry.0.push(item.id).no_duplicates()) by {
                            assert forall|i: int, j: int|
                                0 <= i < j < old_entry.0.push(item.id).len() implies old_entry.0.push(
                                item.id,
                            )[i] != old_entry.0.push(item.id)[j] by {
                                if j < old_entry.0.len() {
                                } else {
                                    assert(old_entry.0.push(item.id)[j] == item.id);
                                    assert(old_entry.0[i] != item.id);
                                }
                            }
                        }
                        assert forall|i: int, j: int|
                            0 <= i < j < new_entry.1.len() implies new_entry.1[i].id
                            != new_entry.1[j].id by {
                            let a = new_entry.1[i];
                            let b = new_entry.1[j];
                            if a == item && b != item {
                                let k = choose|k: int|
                                    0 <= k < old_entry.1.len() && old_entry.1[k] == b;
                                assert(!has_id(old_entry.1, item.id));
                                assert(old_entry.1[k].id != item.id);
                            } else if b == item && a != item {
                                let k = choose|k: int|
                                    0 <= k < old_entry.1.len() && old_entry.1[k] == a;
                                assert(old_entry.1[k].id != item.id);
                            } else if a != item && b != item {
                                let ka = choose|k: int|
                                    0 <= k < old_entry.1.len() && old_entry.1[k] == a;
                                let kb = choose|k: int|
                                    0 <= k < old_entry.1.len() && old_entry.1[k] == b;
                                if ka == kb {
                                    // a == b: both equal the same old element; but the
                                    // inserted list has distinct positions for them, and
                                    // removing `item` from it leaves the old list, in which
                                    // they would occur twice.
                                    let li = insert_pass(old_entry.1, item);
                                    lemma_remove_fresh_pass(old_entry.1, item);
                                    let f = find_pass(li, item.id);
                                    lemma_find_pass(li, item.id);
                                    assert(li[i].id == li[j].id);
                                    assert(li[i].id != item.id);
                                    assert(i != f && j != f);
                                    let i2 = if i < f {
                                        i
                                    } else {
                                        i - 1
                                    };
                                    let j2 = if j < f {
                                        j
                                    } else {
                                        j - 1
                                    };
                                    assert(li.remove(f)[i2] == li[i]);
                                    assert(li.remove(f)[j2] == li[j]);
                                    assert(old_entry.1[i2].id == old_entry.1[j2].id);
                                    assert(i2 != j2);
                                    assert(false);
                                } else {
                                    assert(old_entry.1[ka].id != old_entry.1[kb].id);
                                }
                            } else {
                                // both equal `item`: same contradiction through removal
                                let li = insert_pass(old_entry.1, item);
                                lemma_remove_fresh_pass(old_entry.1, item);
                                let f = find_pass(li, item.id);
                                lemma_find_pass(li, item.id);
                                assert(li[i] == item && li[j] == item);
                                assert(i == f || j == f);
                                if i == f {
                                    assert(li.remove(f)[j - 1].id == item.id);
                                    assert(has_id(old_entry.1, item.id));
                                } else {
                                    assert(li.remove(f)[i].id == item.id);
                                    assert(has_id(old_entry.1, item.id));
                                }
                                assert(false);
                            }
                        }
                        assert forall|id: usize| #[trigger] new_entry.0.contains(id) implies
                            has_id(new_entry.1, id) by {
                            if id == item.id {
                            } else {
                                assert(old_entry.0.contains(id) ==> has_id(old_entry.1, id));
                                let k = choose|k: int|
                                    0 <= k < new_entry.0.len() && new_entry.0[k] == id;
                                assert(old_entry.0[k] == id);
                                assert(old_entry.0.contains(id));
                            }
                        }
                        assert forall|id: usize| has_id(new_entry.1, id) implies
                            #[trigger] new_entry.0.contains(id) by {
                            if id == item.id {
                                assert(new_entry.0[new_entry.0.len() - 1] == id);
                            } else {
                                assert(has_id(old_entry.1, id));
                                assert(old_entry.0.contains(id));
                                let k = choose|k: int|
                                    0 <= k < old_entry.0.len() && old_entry.0[k] == id;
                                assert(new_entry.0[k] == id);
                            }
                        }
                    }
                    assert forall|i: int| 0 <= i < new_pairs.len() implies entry_wf(
                        (#[trigger] new_pairs[i]).1,
                    ) by {
                        if i != ci {
                            assert(new_pairs[i] == old_pairs[i]);
                        }
                    }
                }
                true
            },
            None => {
                let ghost old_pairs = self.pairs();
                let mut members: Vec<usize> = Vec::new();
                members.push(item.id);
                let mut items: Vec<PassItem> = Vec::new();
                items.push(item);
                self.channels.push((subscription, PassEntry { members, items }));
                proof {
                    let new_entry = (seq![item.id], seq![item]);
                    let new_pairs = self.pairs();
                    assert(members@ =~= seq![item.id]);
                    assert(items@ =~= seq![item]);
                    assert(new_pairs =~= old_pairs.push((subscription@, new_entry)));
                    lemma_amap_push(old_pairs, subscription@, new_entry);
                    assert(entry_wf(new_entry)) by {
                        assert forall|id: usize| #[trigger] new_entry.0.contains(id) implies
                            has_id(new_entry.1, id) by {
                            let k = choose|k: int|
                                0 <= k < new_entry.0.len() && new_entry.0[k] == id;
                            assert(new_entry.1[0].id == id);
                        }
                        assert forall|id: usize| has_id(new_entry.1, id) implies
                            #[trigger] new_entry.0.contains(id) by {
                            assert(new_entry.0[0] == id);
                        }
                    }
                    assert forall|i: int| 0 <= i < new_pairs.len() implies entry_wf(
                        (#[trigger] new_pairs[i]).1,
                    ) by {
                        if i < new_pairs.len() - 1 {
                            assert(new_pairs[i] == old_pairs[i]);
                        }
                    }
                    assert(keys_unique(new_pairs)) by {
                        assert forall|i: int, j: int|
                            0 <= i < j < new_pairs.len() implies new_pairs[i].0
                            != new_pairs[j].0 by {
                            if j == new_pairs.len() - 1 {
                                assert(new_pairs[i] == old_pairs[i]);
                                assert(!has_key(old_pairs, subscription@));
                            } else {
                                assert(new_pairs[i] == old_pairs[i]);
                                assert(new_pairs[j] == old_pairs[j]);
                            }
                        }
                    }
                }
                true
            },
        }
    }
}

/// Executable form of the priority order.
pub fn prio_lt_exec(a: &Option<u32>, b: &Option<u32>) -> (r: bool)
    ensures
        r == prio_lt(*a, *b),
{
    match (a, b) {
        (Option::None, Option::Some(_)) => true,
        (Option::Some(x), Option::Some(y)) => x < y,
        _ => false,
    }
}

impl Passes {
    /// Unsubscribe `id` from `subscription`: the item leaves the ordered
    /// list and the membership set; a channel left empty disappears.
    /// Returns whether the id was subscribed there.
    pub fn unsubscribe(&mut self, subscription: Subscription, id: usize) -> (r: bool)
        requires
            old(self).wf(),
        ensures
            final(self).wf(),
            r == after_unsubscribe(old(self)@, subscription@, id).1,
            final(self)@ == after_unsubscribe(old(self)@, subscription@, id).0,
    {
        proof {
            lemma_amap_dom::<SubV, (Seq<usize>, Seq<PassItem>)>(self.pairs());
        }
        match self.find_channel(&subscription) {
            Some(ci) => {
                let ghost old_pairs = self.pairs();
                let ghost old_entry = self.pairs()[ci as int].1;
                proof {
                    lemma_amap_get(old_pairs, ci as int);
                }
                let n_m: usize = self.channels[ci].1.members.len();
                let mut k: usize = 0;
                while k < n_m && self.channels[ci].1.members[k] != id
                    invariant
                        ci < self.channels@.len(),
                        n_m == self.channels@[ci as int].1.members@.len(),
                        0 <= k <= n_m,
                        forall|j: int| 0 <= j < k ==> self.channels@[ci as int].1.members@[j] != id,
                    decreases n_m - k,
                {
                    k = k + 1;
                }
                if k == n_m {
                    proof {
                        assert(forall|j: int| 0 <= j < old_entry.0.len() ==> old_entry.0[j] != id);
                        assert(!old_entry.0.contains(id));
                    }
                    return false;
                }
                proof {
                    assert(old_entry.0[k as int] == id);
                    assert(old_entry.0.contains(id));
                }
                let (sub_key, mut entry) = self.channels.remove(ci);
                entry.members.remove(k);
                let n: usize = entry.items.len();
                let mut pos: usize = 0;
                while pos < n && entry.items[pos].id != id
                    invariant
                        n == entry.items@.len(),
                        entry.items@ == old_entry.1,
                        0 <= pos <= n,
                        forall|j: int| 0 <= j < pos ==> entry.items@[j].id != id,
                    decreases n - pos,
                {
                    pos = pos + 1;
                }
                proof {
                    assert(entry_wf(old_entry));
                    assert(has_id(old_entry.1, id));
                    if pos == n {
                        let w = choose|w: int| 0 <= w < old_entry.1.len() && old_entry.1[w].id == id;
                        assert(false);
                    }
                    assert(find_pass(old_entry.1, id) == pos as int) by {
                        lemma_find_pass(old_entry.1, id);
                        let f = find_pass(old_entry.1, id);
                        if f == -1 {
                            let w = choose|w: int|
                                0 <= w < old_entry.1.len() && old_entry.1[w].id == id;
                            assert(false);
                        }
                        if f < pos as int {
                            assert(old_entry.1[f].id != id);
                        }
                        if f > pos as int {
                            assert(old_entry.1[pos as int].id != id);
                        }
                    }
                    assert(old_entry.0.remove_value(id) == old_entry.0.remove(k as int)) by {
                        old_entry.0.index_of_first_ensures(id);
                        match old_entry.0.index_of_first(id) {
                            Some(i0) => {
                                if i0 < k as int {
                                    assert(old_entry.0[i0] != id);
                                }
                                if i0 > k as int {
                                    assert(old_entry.0[k as int] != id);
                                }
                            },
                            None => {
                                assert(false);
                            },
                        }
                    }
                }
                entry.items.remove(pos);
                let ghost new_ms = old_entry.0.remove(k as int);
                let ghost new_its = old_entry.1.remove(pos as int);
                proof {
                    // the filtered entry keeps well-formedness, id-wise
                    assert forall|i: int, j: int|
                        0 <= i < j < new_its.len() implies new_its[i].id != new_its[j].id by {
                        let i2 = if i < pos as int {
                            i
                        } else {
                            i + 1
                        };
                        let j2 = if j < pos as int {
                            j
                        } else {
                            j + 1
                        };
                        assert(new_its[i] == old_entry.1[i2]);
                        assert(new_its[j] == old_entry.1[j2]);
                    }
                    assert(sorted_pass(new_its)) by {
                        assert forall|i: int, j: int| 0 <= i < j < new_its.len() implies !prio_lt(
                            new_its[i].priority,
                            new_its[j].priority,
                        ) by {
                            let i2 = if i < pos as int {
                                i
                            } else {
                                i + 1
                            };
                            let j2 = if j < pos as int {
                                j
                            } else {
                                j + 1
                            };
                            assert(new_its[i] == old_entry.1[i2]);
                            assert(new_its[j] == old_entry.1[j2]);
                        }
                    }
                    assert(new_ms.no_duplicates()) by {
                        assert forall|i: int, j: int|
                            0 <= i < j < new_ms.len() implies new_ms[i] != new_ms[j] by {
                            let i2 = if i < k as int {
                                i
                            } else {
                                i + 1
                            };
                            let j2 = if j < k as int {
                                j
                            } else {
                                j + 1
                            };
                            assert(new_ms[i] == old_entry.0[i2]);
                            assert(new_ms[j] == old_entry.0[j2]);
                        }
                    }
                    assert forall|id2: usize| #[trigger] new_ms.contains(id2) implies has_id(
                        new_its,
                        id2,
                    ) by {
                        let w = choose|w: int| 0 <= w < new_ms.len() && new_ms[w] == id2;
                        let w2 = if w < k as int {
                            w
                        } else {
                            w + 1
                        };
                        assert(old_entry.0[w2] == id2);
                        assert(old_entry.0.contains(id2));
                        assert(id2 != id) by {
                            if id2 == id {
                                assert(old_entry.0[k as int] == id);
                                assert(w2 != k as int);
                            }
                        }
                        assert(has_id(old_entry.1, id2));
                        let v = choose|v: int| 0 <= v < old_entry.1.len() && old_entry.1[v].id == id2;
                        assert(v != pos as int);
                        let v2 = if v < pos as int {
                            v
                        } else {
                            v - 1
                        };
                        assert(new_its[v2] == old_entry.1[v]);
                    }
                    assert forall|id2: usize| has_id(new_its, id2) implies #[trigger] new_ms.contains(
                        id2,
                    ) by {
                        let w = choose|w: int| 0 <= w < new_its.len() && new_its[w].id == id2;
                        let w2 = if w < pos as int {
                            w
                        } else {
                            w + 1
                        };
                        assert(old_entry.1[w2].id == id2);
                        assert(has_id(old_entry.1, id2));
                        assert(old_entry.0.contains(id2));
                        assert(id2 != id) by {
                            if id2 == id {
                                assert(old_entry.1[pos as int].id == id);
                                assert(w2 != pos as int);
                            }
                        }
                        let v = choose|v: int| 0 <= v < old_entry.0.len() && old_entry.0[v] == id2;
                        assert(v != k as int);
                        let v2 = if v < k as int {
                            v
                        } else {
                            v - 1
                        };
                        assert(new_ms[v2] == old_entry.0[v]);
                    }
                }
                if entry.items.len() == 0 {
                    proof {
                        lemma_amap_remove(old_pairs, ci as int);
                        assert(self.pairs() =~= old_pairs.remove(ci as int));
                        assert forall|i: int| 0 <= i < self.pairs().len() implies entry_wf(
                            (#[trigger] self.pairs()[i]).1,
                        ) by {
                            if i < ci {
                                assert(self.pairs()[i] == old_pairs[i]);
                            } else {
                                assert(self.pairs()[i] == old_pairs[i + 1]);
                            }
                        }
                        assert(keys_unique(self.pairs())) by {
                            assert forall|i: int, j: int|
                                0 <= i < j < self.pairs().len() implies self.pairs()[i].0
                                != self.pairs()[j].0 by {
                                let i2 = if i < ci {
                                    i
                                } else {
                                    i + 1
                                };
                                let j2 = if j < ci {
                                    j
                                } else {
                                    j + 1
                                };
                                assert(self.pairs()[i] == old_pairs[i2]);
                                assert(self.pairs()[j] == old_pairs[j2]);
                            }
                        }
                    }
                    true
                } else {
                    self.channels.insert(ci, (sub_key, entry));
                    proof {
                        assert(self.pairs() =~= old_pairs.update(
                            ci as int,
                            (old_pairs[ci as int].0, (new_ms, new_its)),
                        ));
                        lemma_amap_update(old_pairs, ci as int, (new_ms, new_its));
                        assert(entry_wf((new_ms, new_its))) by {
                            assert(new_its.len() > 0);
                            assert(has_id(new_its, new_its[0].id));
                            assert(new_ms.contains(new_its[0].id));
                            assert(new_ms.len() > 0);
                        }
                        assert forall|i: int| 0 <= i < self.pairs().len() implies entry_wf(
                            (#[trigger] self.pairs()[i]).1,
                        ) by {
                            if i != ci {
                                assert(self.pairs()[i] == old_pairs[i]);
                            }
                        }
                    }
                    true
                }
            },
            None => {
                false
            },
        }
    }
}

/// The membership list without `id`.
pub open spec fn drop_id_members(ms: Seq<usize>, id: usize) -> Seq<usize>
    decreases ms.len(),
{
    if ms.len() == 0 {
        Seq::empty()
    } else {
        let rest = drop_id_members(ms.drop_last(), id);
        if ms.last() != id {
            rest.push(ms.last())
        } else {
            rest
        }
    }
}

/// The ordered list without the items carrying `id`.
pub open spec fn drop_id_items(its: Seq<PassItem>, id: usize) -> Seq<PassItem>
    decreases its.len(),
{
    if its.len() == 0 {
        Seq::empty()
    } else {
        let rest = drop_id_items(its.drop_last(), id);
        if its.last().id != id {
            rest.push(its.last())
        } else {
            rest
        }
    }
}

/// A channel entry with every trace of subscriber `id` removed.
pub open spec fn purge_entry(
    e: (Seq<usize>, Seq<PassItem>),
    id: usize,
) -> (Seq<usize>, Seq<PassItem>) {
    (drop_id_members(e.0, id), drop_id_items(e.1, id))
}

/// The registry with subscriber `id` purged from every channel; channels
/// left empty disappear.
pub open spec fn purge_passes(
    m: Map<SubV, (Seq<usize>, Seq<PassItem>)>,
    id: usize,
) -> Map<SubV, (Seq<usize>, Seq<PassItem>)> {
    Map::new(
        |c: SubV| m.dom().contains(c) && purge_entry(m[c], id).1.len() > 0,
        |c: SubV| purge_entry(m[c], id),
    )
}

/// The purge at the association-list level.
pub open spec fn purged_pairs(
    s: Seq<(SubV, (Seq<usize>, Seq<PassItem>))>,
    id: usize,
) -> Seq<(SubV, (Seq<usize>, Seq<PassItem>))>
    decreases s.len(),
{
    if s.len() == 0 {
        Seq::empty()
    } else {
        let rest = purged_pairs(s.drop_last(), id);
        let pe = purge_entry(s.last().1, id);
        if pe.1.len() > 0 {
            rest.push((s.last().0, pe))
        } else {
            rest
        }
    }
}

/// What `drop_id_items` keeps: the other ids, their order and their
/// elements, unchanged.
#[verifier::rlimit(60)]
pub proof fn lemma_filter_pass(its: Seq<PassItem>, id: usize)
    ensures
        forall|id2: usize| #[trigger] has_id(drop_id_items(its, id), id2) ==> has_id(its, id2)
            && id2 != id,
        forall|id2: usize| #[trigger] has_id(its, id2) && id2 != id ==> has_id(
            drop_id_items(its, id),
            id2,
        ),
        sorted_pass(its) ==> sorted_pass(drop_id_items(its, id)),
        pass_ids_distinct(its) ==> pass_ids_distinct(drop_id_items(its, id)),
        forall|i: int|
            0 <= i < drop_id_items(its, id).len() ==> exists|v: int|
                0 <= v < its.len() && its[v] == #[trigger] drop_id_items(its, id)[i],
    decreases its.len(),
{
    if its.len() == 0 {
        assert forall|id2: usize| #[trigger] has_id(drop_id_items(its, id), id2) implies has_id(
            its,
            id2,
        ) && id2 != id by {
            let w = choose|w: int|
                0 <= w < drop_id_items(its, id).len() && drop_id_items(its, id)[w].id == id2;
            assert(false);
        }
        assert forall|id2: usize| #[trigger] has_id(its, id2) && id2 != id implies has_id(
            drop_id_items(its, id),
            id2,
        ) by {
            let w = choose|w: int| 0 <= w < its.len() && its[w].id == id2;
            assert(false);
        }
    } else {
        lemma_filter_pass(its.drop_last(), id);
        let rest = drop_id_items(its.drop_last(), id);
        let f = drop_id_items(its, id);
        assert(forall|i: int|
            0 <= i < its.drop_last().len() ==> #[trigger] its.drop_last()[i] == its[i]);
        assert forall|i: int| 0 <= i < f.len() implies exists|v: int|
            0 <= v < its.len() && its[v] == #[trigger] f[i] by {
            if its.last().id != id && i == f.len() - 1 {
                assert(its[its.len() - 1] == f[i]);
            } else {
                assert(f[i] == rest[i]);
                let v = choose|v: int|
                    0 <= v < its.drop_last().len() && its.drop_last()[v] == rest[i];
                assert(its[v] == f[i]);
            }
        }
        assert forall|id2: usize| has_id(f, id2) implies (#[trigger] has_id(its, id2) && id2
            != id) by {
            let w = choose|w: int| 0 <= w < f.len() && f[w].id == id2;
            if its.last().id != id && w == f.len() - 1 {
                assert(its[its.len() - 1].id == id2);
            } else {
                assert(rest[w].id == id2);
                assert(has_id(rest, id2));
                assert(has_id(its.drop_last(), id2));
                assert(id2 != id);
                let v = choose|v: int|
                    0 <= v < its.drop_last().len() && its.drop_last()[v].id == id2;
                assert(its[v].id == id2);
            }
        }
        assert forall|id2: usize| #[trigger] has_id(its, id2) && id2 != id implies has_id(
            f,
            id2,
        ) by {
            let w = choose|w: int| 0 <= w < its.len() && its[w].id == id2;
            if w == its.len() - 1 {
                assert(f[f.len() - 1].id == id2);
            } else {
                assert(its.drop_last()[w].id == id2);
                assert(has_id(its.drop_last(), id2));
                assert(has_id(rest, id2));
                let v = choose|v: int| 0 <= v < rest.len() && rest[v].id == id2;
                assert(f[v].id == id2);
            }
        }
        if sorted_pass(its) {
            assert(sorted_pass(its.drop_last()));
            assert(sorted_pass(rest));
            if its.last().id != id {
                assert forall|i: int, j: int| 0 <= i < j < f.len() implies !prio_lt(
                    f[i].priority,
                    f[j].priority,
                ) by {
                    if j < f.len() - 1 {
                        assert(f[i] == rest[i] && f[j] == rest[j]);
                    } else {
                        assert(f[j] == its.last());
                        if i < f.len() - 1 {
                            assert(f[i] == rest[i]);
                            let v = choose|v: int|
                                0 <= v < its.drop_last().len() && its.drop_last()[v] == rest[i];
                            assert(its[v] == rest[i]);
                            assert(!prio_lt(its[v].priority, its[its.len() - 1].priority));
                        }
                    }
                }
            }
        }
        if pass_ids_distinct(its) {
            assert(pass_ids_distinct(its.drop_last()));
            if its.last().id != id {
                assert forall|i: int, j: int| 0 <= i < j < f.len() implies f[i].id != f[j].id by {
                    if j < f.len() - 1 {
                        assert(f[i] == rest[i] && f[j] == rest[j]);
                    } else {
                        assert(f[j] == its.last());
                        if i < f.len() - 1 {
                            assert(f[i] == rest[i]);
                            let v = choose|v: int|
                                0 <= v < its.drop_last().len() && its.drop_last()[v] == rest[i];
                            assert(its[v] == rest[i]);
                            assert(its[v].id != its[its.len() - 1].id);
                        }
                    }
                }
            }
        }
        assert forall|id2: usize| #[trigger] has_id(drop_id_items(its, id), id2) implies has_id(
            its,
            id2,
        ) && id2 != id by {
            assert(has_id(f, id2));
        }
    }
}

/// What `drop_id_members` keeps.
pub proof fn lemma_filter_members(ms: Seq<usize>, id: usize)
    ensures
        forall|id2: usize| #[trigger] drop_id_members(ms, id).contains(id2) ==> ms.contains(id2)
            && id2 != id,
        forall|id2: usize| #[trigger] ms.contains(id2) && id2 != id ==> drop_id_members(
            ms,
            id,
        ).contains(id2),
        ms.no_duplicates() ==> drop_id_members(ms, id).no_duplicates(),
    decreases ms.len(),
{
    if ms.len() == 0 {
    } else {
        lemma_filter_members(ms.drop_last(), id);
        let rest = drop_id_members(ms.drop_last(), id);
        let f = drop_id_members(ms, id);
        assert(forall|i: int|
            0 <= i < ms.drop_last().len() ==> #[trigger] ms.drop_last()[i] == ms[i]);
        if ms.no_duplicates() {
            assert(ms.drop_last().no_duplicates());
        }
        assert forall|id2: usize| f.contains(id2) implies (#[trigger] ms.contains(id2) && id2
            != id) by {
            let w = choose|w: int| 0 <= w < f.len() && f[w] == id2;
            if ms.last() != id && w == f.len() - 1 {
                assert(ms[ms.len() - 1] == id2);
            } else {
                assert(rest[w] == id2);
                assert(rest.contains(id2));
                assert(ms.drop_last().contains(id2));
                assert(id2 != id);
                let v = choose|v: int|
                    0 <= v < ms.drop_last().len() && ms.drop_last()[v] == id2;
                assert(ms[v] == id2);
            }
        }
        assert forall|id2: usize| #[trigger] ms.contains(id2) && id2 != id implies f.contains(
            id2,
        ) by {
            let w = choose|w: int| 0 <= w < ms.len() && ms[w] == id2;
            if w == ms.len() - 1 {
                assert(f[f.len() - 1] == id2);
            } else {
                assert(ms.drop_last()[w] == id2);
                assert(ms.drop_last().contains(id2));
                assert(rest.contains(id2));
                let v = choose|v: int| 0 <= v < rest.len() && rest[v] == id2;
                assert(f[v] == id2);
            }
        }
        if ms.no_duplicates() && ms.last() != id {
            assert forall|i: int, j: int| 0 <= i < j < f.len() implies f[i] != f[j] by {
                if j < f.len() - 1 {
                    assert(f[i] == rest[i] && f[j] == rest[j]);
                } else {
                    assert(f[j] == ms.last());
                    if i < f.len() - 1 {
                        assert(f[i] == rest[i]);
                        assert(rest.contains(rest[i]));
                        assert(ms.drop_last().contains(rest[i]));
                        let v = choose|v: int|
                            0 <= v < ms.drop_last().len() && ms.drop_last()[v] == rest[i];
                        assert(ms[v] == rest[i]);
                        assert(ms[v] != ms[ms.len() - 1]);
                    }
                }
            }
        }
    }
}

/// The association-list purge denotes the map-level purge.
pub proof fn lemma_purged_pairs(s: Seq<(SubV, (Seq<usize>, Seq<PassItem>))>, id: usize)
    requires
        keys_unique(s),
    ensures
        keys_unique(purged_pairs(s, id)),
        forall|k: SubV| #[trigger] has_key(purged_pairs(s, id), k) ==> has_key(s, k),
        amap(purged_pairs(s, id)) == purge_passes(amap(s), id),
    decreases s.len(),
{
    if s.len() == 0 {
        assert(amap(purged_pairs(s, id)) =~= purge_passes(amap(s), id));
    } else {
        let s0 = s.drop_last();
        assert(keys_unique(s0)) by {
            assert forall|i: int, j: int| 0 <= i < j < s0.len() implies s0[i].0 != s0[j].0 by {
                assert(s0[i] == s[i] && s0[j] == s[j]);
            }
        }
        lemma_purged_pairs(s0, id);
        lemma_amap_dom::<SubV, (Seq<usize>, Seq<PassItem>)>(s0);
        lemma_amap_dom::<SubV, (Seq<usize>, Seq<PassItem>)>(s);
        let p = s.last();
        let pe = purge_entry(p.1, id);
        assert(!has_key(s0, p.0)) by {
            if has_key(s0, p.0) {
                let w = choose|w: int| 0 <= w < s0.len() && s0[w].0 == p.0;
                assert(s[w].0 == p.0);
            }
        }
        assert(amap(s) == amap(s0).insert(p.0, p.1));
        // keys of the purge are kept keys
        assert forall|k: SubV| #[trigger] has_key(purged_pairs(s, id), k) implies has_key(
            s,
            k,
        ) by {
            let pp = purged_pairs(s, id);
            let w = choose|w: int| 0 <= w < pp.len() && pp[w].0 == k;
            if pe.1.len() > 0 && w == pp.len() - 1 {
                assert(s[s.len() - 1].0 == k);
            } else {
                assert(purged_pairs(s0, id)[w].0 == k);
                assert(has_key(purged_pairs(s0, id), k));
                assert(has_key(s0, k));
                let v = choose|v: int| 0 <= v < s0.len() && s0[v].0 == k;
                assert(s[v].0 == k);
            }
        }
        assert(keys_unique(purged_pairs(s, id))) by {
            let pp = purged_pairs(s, id);
            let rest = purged_pairs(s0, id);
            assert forall|i: int, j: int| 0 <= i < j < pp.len() implies pp[i].0 != pp[j].0 by {
                if pe.1.len() > 0 && j == pp.len() - 1 {
                    assert(pp[i] == rest[i]);
                    assert(has_key(rest, rest[i].0));
                    assert(has_key(s0, rest[i].0));
                    assert(pp[j].0 == p.0);
                } else {
                    assert(pp[i] == rest[i] && pp[j] == rest[j]);
                }
            }
        }
        lemma_amap_dom::<SubV, (Seq<usize>, Seq<PassItem>)>(purged_pairs(s0, id));
        if pe.1.len() > 0 {
            lemma_amap_push(purged_pairs(s0, id), p.0, pe);
            assert(amap(purged_pairs(s, id)) =~= purge_passes(amap(s), id)) by {
                assert forall|c: SubV|
                    purge_passes(amap(s), id).dom().contains(c) implies amap(
                    purged_pairs(s, id),
                ).dom().contains(c) && amap(purged_pairs(s, id))[c] == purge_passes(
                    amap(s),
                    id,
                )[c] by {
                    if c == p.0 {
                    } else {
                        assert(amap(s)[c] == amap(s0)[c]);
                        assert(purge_passes(amap(s0), id).dom().contains(c));
                    }
                }
                assert forall|c: SubV|
                    amap(purged_pairs(s, id)).dom().contains(c) implies purge_passes(
                    amap(s),
                    id,
                ).dom().contains(c) by {
                    if c == p.0 {
                    } else {
                        assert(amap(purged_pairs(s0, id)).dom().contains(c));
                        assert(purge_passes(amap(s0), id).dom().contains(c));
                        assert(amap(s0).dom().contains(c));
                        assert(amap(s).dom().contains(c));
                    }
                }
            }
        } else {
            assert(amap(purged_pairs(s, id)) =~= purge_passes(amap(s), id)) by {
                assert forall|c: SubV|
                    purge_passes(amap(s), id).dom().contains(c) implies amap(
                    purged_pairs(s, id),
                ).dom().contains(c) && amap(purged_pairs(s, id))[c] == purge_passes(
                    amap(s),
                    id,
                )[c] by {
                    assert(c != p.0);
                    assert(amap(s)[c] == amap(s0)[c]);
                    assert(purge_passes(amap(s0), id).dom().contains(c));
                }
                assert forall|c: SubV|
                    amap(purged_pairs(s, id)).dom().contains(c) implies purge_passes(
                    amap(s),
                    id,
                ).dom().contains(c) by {
                    assert(amap(purged_pairs(s0, id)).dom().contains(c));
                    assert(purge_passes(amap(s0), id).dom().contains(c));
                    assert(amap(s0).dom().contains(c));
                    assert(amap(s).dom().contains(c));
                    assert(c != p.0) by {
                        if c == p.0 {
                            assert(has_key(s0, c));
                        }
                    }
                }
            }
        }
    }
}

impl Passes {
    /// Purge every trace of subscriber `id`: called when the component
    /// leaves, so no pass list keeps referring to it.
    pub fn unsub_all(&mut self, id: usize)
        requires
            old(self).wf(),
        ensures
            final(self).wf(),
            final(self)@ == purge_passes(old(self)@, id),
    {
        let ghost old_pairs = self.pairs();
        let n: usize = self.channels.len();
        let mut out: Vec<(Subscription, PassEntry)> = Vec::new();
        let mut i: usize = 0;
        while i < n
            invariant
                n == self.channels@.len(),
                0 <= i <= n,
                old_pairs == self.pairs(),
                self.wf(),
                out@.map_values(
                    |p: (Subscription, PassEntry)| (p.0@, (p.1.members@, p.1.items@)),
                ) == purged_pairs(old_pairs.subrange(0, i as int), id),
            decreases n - i,
        {
            let ghost prev = purged_pairs(old_pairs.subrange(0, i as int), id);
            let mm: usize = self.channels[i].1.members.len();
            let mut ms: Vec<usize> = Vec::new();
            let mut j: usize = 0;
            while j < mm
                invariant
                    i < self.channels@.len(),
                    mm == self.channels@[i as int].1.members@.len(),
                    0 <= j <= mm,
                    ms@ == drop_id_members(
                        self.channels@[i as int].1.members@.subrange(0, j as int),
                        id,
                    ),
                decreases mm - j,
            {
                let ghost msrc = self.channels@[i as int].1.members@;
                proof {
                    assert(msrc.subrange(0, j + 1).drop_last() =~= msrc.subrange(0, j as int));
                    assert(msrc.subrange(0, j + 1).last() == msrc[j as int]);
                }
                let v = self.channels[i].1.members[j];
                if v != id {
                    ms.push(v);
                }
                j = j + 1;
            }
            let nn: usize = self.channels[i].1.items.len();
            let mut its: Vec<PassItem> = Vec::new();
            let mut j2: usize = 0;
            while j2 < nn
                invariant
                    i < self.channels@.len(),
                    nn == self.channels@[i as int].1.items@.len(),
                    0 <= j2 <= nn,
                    its@ == drop_id_items(
                        self.channels@[i as int].1.items@.subrange(0, j2 as int),
                        id,
                    ),
                decreases nn - j2,
            {
                let ghost isrc = self.channels@[i as int].1.items@;
                proof {
                    assert(isrc.subrange(0, j2 + 1).drop_last() =~= isrc.subrange(0, j2 as int));
                    assert(isrc.subrange(0, j2 + 1).last() == isrc[j2 as int]);
                }
                let v = self.channels[i].1.items[j2];
                if v.id != id {
                    its.push(v);
                }
                j2 = j2 + 1;
            }
            proof {
                assert(self.channels@[i as int].1.members@.subrange(0, mm as int)
                    =~= self.channels@[i as int].1.members@);
                assert(self.channels@[i as int].1.items@.subrange(0, nn as int)
                    =~= self.channels@[i as int].1.items@);
                assert(old_pairs.subrange(0, i + 1).drop_last() =~= old_pairs.subrange(
                    0,
                    i as int,
                ));
                assert(old_pairs.subrange(0, i + 1).last() == old_pairs[i as int]);
                assert(old_pairs[i as int].1 == (
                    self.channels@[i as int].1.members@,
                    self.channels@[i as int].1.items@,
                ));
            }
            proof {
                assert(ms@ == purge_entry(old_pairs[i as int].1, id).0);
                assert(its@ == purge_entry(old_pairs[i as int].1, id).1);
            }
            if its.len() > 0 {
                let sub_key = self.channels[i].0.dup();
                proof {
                    assert(sub_key@ == old_pairs[i as int].0);
                    assert(purge_entry(old_pairs[i as int].1, id).1.len() > 0);
                }
                let ghost old_out = out@;
                out.push((sub_key, PassEntry { members: ms, items: its }));
                proof {
                    assert(out@.drop_last() =~= old_out);
                    assert(out@.map_values(
                        |p: (Subscription, PassEntry)| (p.0@, (p.1.members@, p.1.items@)),
                    ) =~= purged_pairs(old_pairs.subrange(0, i + 1), id));
                }
            } else {
                proof {
                    assert(purge_entry(old_pairs[i as int].1, id).1.len() == 0);
                    assert(out@.map_values(
                        |p: (Subscription, PassEntry)| (p.0@, (p.1.members@, p.1.items@)),
                    ) =~= purged_pairs(old_pairs.subrange(0, i + 1), id));
                }
            }
            i = i + 1;
        }
        self.channels = out;
        proof {
            assert(old_pairs.subrange(0, n as int) =~= old_pairs);
            lemma_purged_pairs(old_pairs, id);
            // well-formedness of every kept entry
            let pp = purged_pairs(old_pairs, id);
            lemma_amap_dom::<SubV, (Seq<usize>, Seq<PassItem>)>(old_pairs);
            assert forall|w: int| 0 <= w < pp.len() implies entry_wf((#[trigger] pp[w]).1) by {
                assert(has_key(pp, pp[w].0));
                let v = choose|v: int| 0 <= v < old_pairs.len() && old_pairs[v].0 == pp[w].0;
                lemma_amap_get(old_pairs, v);
                lemma_amap_get(pp, w);
                lemma_amap_dom::<SubV, (Seq<usize>, Seq<PassItem>)>(pp);
                assert(amap(pp) == purge_passes(amap(old_pairs), id));
                assert(amap(pp).dom().contains(pp[w].0));
                assert(purge_passes(amap(old_pairs), id).dom().contains(pp[w].0));
                assert(pp[w].1 == purge_entry(old_pairs[v].1, id));
                let e = old_pairs[v].1;
                let pe = purge_entry(e, id);
                assert(entry_wf(e));
                assert(pass_ids_distinct(e.1));
                lemma_filter_pass(e.1, id);
                lemma_filter_members(e.0, id);
                assert(pass_ids_distinct(pe.1));
                assert(sorted_pass(pe.1));
                assert(pe.0.no_duplicates());
                assert forall|id2: usize| #[trigger] pe.0.contains(id2) implies has_id(
                    pe.1,
                    id2,
                ) by {
                    assert(e.0.contains(id2));
                    assert(id2 != id);
                    assert(has_id(e.1, id2));
                }
                assert forall|id2: usize| has_id(pe.1, id2) implies #[trigger] pe.0.contains(
                    id2,
                ) by {
                    assert(has_id(e.1, id2));
                    assert(id2 != id);
                    assert(e.0.contains(id2));
                }
                assert(pe.1.len() > 0);
                assert(has_id(pe.1, pe.1[0].id));
                assert(pe.0.contains(pe.1[0].id));
                let u = choose|u: int| 0 <= u < pe.0.len() && pe.0[u] == pe.1[0].id;
                assert(pe.0.len() > 0);
            }
        }
    }

    }

/// The registry with each of the `dead` subscribers purged in turn.
pub open spec fn purge_passes_many(
    m: Map<SubV, (Seq<usize>, Seq<PassItem>)>,
    dead: Seq<usize>,
) -> Map<SubV, (Seq<usize>, Seq<PassItem>)>
    decreases dead.len(),
{
    if dead.len() == 0 {
        m
    } else {
        purge_passes(purge_passes_many(m, dead.drop_last()), dead.last())
    }
}

/// What survives the purge of many subscribers: channels that were there
/// before, items that were there before, and none carrying a dead id.
pub proof fn lemma_purge_many_facts(m: Map<SubV, (Seq<usize>, Seq<PassItem>)>, dead: Seq<usize>)
    ensures
        forall|ch: SubV| #[trigger]
            purge_passes_many(m, dead).dom().contains(ch) ==> m.dom().contains(ch),
        forall|ch: SubV, j: int|
            purge_passes_many(m, dead).dom().contains(ch) && 0 <= j < purge_passes_many(
                m,
                dead,
            )[ch].1.len() ==> !dead.contains(
                (#[trigger] purge_passes_many(m, dead)[ch].1[j]).id,
            ) && has_id(m[ch].1, purge_passes_many(m, dead)[ch].1[j].id),
    decreases dead.len(),
{
    if dead.len() > 0 {
        lemma_purge_many_facts(m, dead.drop_last());
        let prev = purge_passes_many(m, dead.drop_last());
        let cur = purge_passes_many(m, dead);
        let last = dead.last();
        assert forall|ch: SubV, j: int|
            cur.dom().contains(ch) && 0 <= j < cur[ch].1.len() implies !dead.contains(
            (#[trigger] cur[ch].1[j]).id,
        ) && has_id(m[ch].1, cur[ch].1[j].id) by {
            assert(prev.dom().contains(ch));
            assert(cur[ch].1 == drop_id_items(prev[ch].1, last));
            lemma_filter_pass(prev[ch].1, last);
            let it = cur[ch].1[j];
            assert(exists|v: int| 0 <= v < prev[ch].1.len() && prev[ch].1[v] == it);
            let v = choose|v: int| 0 <= v < prev[ch].1.len() && prev[ch].1[v] == it;
            assert(!dead.drop_last().contains(it.id));
            assert(has_id(cur[ch].1, it.id));
            assert(it.id != last);
            assert(!dead.contains(it.id)) by {
                if dead.contains(it.id) {
                    let w = choose|w: int| 0 <= w < dead.len() && dead[w] == it.id;
                    if w < dead.len() - 1 {
                        assert(dead.drop_last()[w] == it.id);
                    }
                }
            }
            assert(has_id(m[ch].1, it.id));
        }
    }
}

impl Passes {
    /// Purge every trace of each of the `dead` subscribers, in order.
    pub fn unsub_many(&mut self, dead: &Vec<usize>)
        requires
            old(self).wf(),
        ensures
            final(self).wf(),
            final(self)@ == purge_passes_many(old(self)@, dead@),
    {
        let ghost m0 = self@;
        let n: usize = dead.len();
        let mut k: usize = 0;
        while k < n
            invariant
                n == dead@.len(),
                0 <= k <= n,
                self.wf(),
                self@ == purge_passes_many(m0, dead@.subrange(0, k as int)),
            decreases n - k,
        {
            proof {
                assert(dead@.subrange(0, k + 1).drop_last() =~= dead@.subrange(0, k as int));
                assert(dead@.subrange(0, k + 1).last() == dead@[k as int]);
            }
            self.unsub_all(dead[k]);
            k = k + 1;
        }
        proof {
            assert(dead@.subrange(0, n as int) =~= dead@);
        }
    }
}

impl Passes {
    /// The subscribers an event published on `channels` is offered to, in
    /// delivery order: the union over the matched channels, each subscriber
    /// once at its first-matched priority, sorted descending by priority
    /// with ties in first-collection order.
    pub fn subscribers(&self, channels: &Vec<Subscription>) -> (r: Vec<PassItem>)
        requires
            self.wf(),
        ensures
            r@ == spec_subscribers(self@, views_of_subs(channels@)),
    {
        let ghost chans = views_of_subs(channels@);
        let ghost m = self@;
        let n: usize = channels.len();
        let mut collected: Vec<PassItem> = Vec::new();
        let mut i: usize = 0;
        while i < n
            invariant
                self.wf(),
                n == channels@.len(),
                chans == views_of_subs(channels@),
                m == self@,
                0 <= i <= n,
                collected@ == spec_collect(m, chans.subrange(0, i as int)),
            decreases n - i,
        {
            proof {
                assert(chans.subrange(0, i + 1).drop_last() =~= chans.subrange(0, i as int));
                assert(chans.subrange(0, i + 1).last() == chans[i as int]);
            }
            match self.find_channel(&channels[i]) {
                Some(ci) => {
                    proof {
                        lemma_amap_get(self.pairs(), ci as int);
                        assert(chan_items(m, chans[i as int]) == self.channels@[ci as int].1.items@);
                    }
                    let ghost base = collected@;
                    let cnt: usize = self.channels[ci].1.items.len();
                    let mut j: usize = 0;
                    while j < cnt
                        invariant
                            ci < self.channels@.len(),
                            cnt == self.channels@[ci as int].1.items@.len(),
                            0 <= j <= cnt,
                            collected@ == base + self.channels@[ci as int].1.items@.subrange(
                                0,
                                j as int,
                            ),
                        decreases cnt - j,
                    {
                        let it = self.channels[ci].1.items[j];
                        collected.push(it);
                        proof {
                            assert(collected@ =~= base + self.channels@[
                                ci as int
                            ].1.items@.subrange(0, j + 1));
                        }
                        j = j + 1;
                    }
                    proof {
                        assert(self.channels@[ci as int].1.items@.subrange(0, cnt as int)
                            =~= self.channels@[ci as int].1.items@);
                    }
                },
                None => {
                    proof {
                        crate::assoc::lemma_amap_dom::<SubV, (Seq<usize>, Seq<PassItem>)>(
                            self.pairs(),
                        );
                        assert(!m.dom().contains(chans[i as int]));
                        assert(chan_items(m, chans[i as int]) =~= Seq::<PassItem>::empty());
                        assert(collected@ =~= spec_collect(m, chans.subrange(0, i as int))
                            + chan_items(m, chans[i as int]));
                    }
                },
            }
            i = i + 1;
        }
        proof {
            assert(chans.subrange(0, n as int) =~= chans);
        }
        // keep only the first occurrence of each id
        let cn: usize = collected.len();
        let mut dd: Vec<PassItem> = Vec::new();
        let mut k: usize = 0;
        while k < cn
            invariant
                cn == collected@.len(),
                0 <= k <= cn,
                dd@ == spec_dedup(collected@.subrange(0, k as int)),
                forall|id2: usize| #[trigger] has_id(dd@, id2) <==> has_id(
                    collected@.subrange(0, k as int),
                    id2,
                ),
            decreases cn - k,
        {
            let ghost pre = collected@.subrange(0, k as int);
            proof {
                assert(collected@.subrange(0, k + 1).drop_last() =~= pre);
                assert(collected@.subrange(0, k + 1).last() == collected@[k as int]);
            }
            let item = collected[k];
            let dn: usize = dd.len();
            let mut t: usize = 0;
            while t < dn && dd[t].id != item.id
                invariant
                    dn == dd@.len(),
                    0 <= t <= dn,
                    forall|j: int| 0 <= j < t ==> dd@[j].id != item.id,
                decreases dn - t,
            {
                t = t + 1;
            }
            if t == dn {
                let ghost old_dd = dd@;
                proof {
                    assert(forall|j: int| 0 <= j < dd@.len() ==> dd@[j].id != item.id);
                    assert(!has_id(dd@, item.id));
                    assert(!has_id(pre, item.id));
                }
                dd.push(item);
                proof {
                    assert(dd@.drop_last() =~= old_dd);
                    assert(dd@ == spec_dedup(collected@.subrange(0, k + 1)));
                    assert forall|id2: usize| #[trigger] has_id(dd@, id2) implies has_id(
                        collected@.subrange(0, k + 1),
                        id2,
                    ) by {
                        let w = choose|w: int| 0 <= w < dd@.len() && dd@[w].id == id2;
                        if w == dd@.len() - 1 {
                            assert(collected@.subrange(0, k + 1)[k as int].id == id2);
                        } else {
                            assert(dd@.drop_last()[w] == dd@[w]);
                            assert(has_id(old_dd, id2));
                            assert(has_id(pre, id2));
                            let v = choose|v: int| 0 <= v < pre.len() && pre[v].id == id2;
                            assert(collected@.subrange(0, k + 1)[v].id == id2);
                        }
                    }
                    assert forall|id2: usize| has_id(collected@.subrange(0, k + 1), id2) implies
                        #[trigger] has_id(dd@, id2) by {
                        let s1 = collected@.subrange(0, k + 1);
                        let w = choose|w: int| 0 <= w < s1.len() && s1[w].id == id2;
                        if w == k as int {
                            assert(dd@[dd@.len() - 1].id == id2);
                        } else {
                            assert(pre[w].id == id2);
                            assert(has_id(pre, id2));
                            assert(has_id(old_dd, id2));
                            let v = choose|v: int| 0 <= v < old_dd.len() && old_dd[v].id == id2;
                            assert(dd@[v] == old_dd[v]);
                            assert(dd@[v].id == id2);
                        }
                    }
                }
            } else {
                proof {
                    assert(dd@[t as int].id == item.id);
                    assert(has_id(dd@, item.id));
                    assert(has_id(pre, item.id));
                    assert(dd@ == spec_dedup(collected@.subrange(0, k + 1)));
                    assert forall|id2: usize| has_id(collected@.subrange(0, k + 1), id2) implies
                        #[trigger] has_id(dd@, id2) by {
                        let s1 = collected@.subrange(0, k + 1);
                        let w = choose|w: int| 0 <= w < s1.len() && s1[w].id == id2;
                        if w == k as int {
                        } else {
                            assert(pre[w].id == id2);
                            assert(has_id(pre, id2));
                        }
                    }
                    assert forall|id2: usize| #[trigger] has_id(dd@, id2) implies has_id(
                        collected@.subrange(0, k + 1),
                        id2,
                    ) by {
                        assert(has_id(pre, id2));
                        let v = choose|v: int| 0 <= v < pre.len() && pre[v].id == id2;
                        assert(collected@.subrange(0, k + 1)[v].id == id2);
                    }
                }
            }
            k = k + 1;
        }
        proof {
            assert(collected@.subrange(0, cn as int) =~= collected@);
        }
        // stable insertion sort, descending by priority
        let sn: usize = dd.len();
        let mut r: Vec<PassItem> = Vec::new();
        let mut k2: usize = 0;
        while k2 < sn
            invariant
                sn == dd@.len(),
                0 <= k2 <= sn,
                r@ == spec_sort(dd@.subrange(0, k2 as int)),
                sorted_pass(r@),
            decreases sn - k2,
        {
            let ghost pre = dd@.subrange(0, k2 as int);
            proof {
                assert(dd@.subrange(0, k2 + 1).drop_last() =~= pre);
                assert(dd@.subrange(0, k2 + 1).last() == dd@[k2 as int]);
            }
            let item = dd[k2];
            let rn: usize = r.len();
            let mut pos: usize = 0;
            while pos < rn && !prio_lt_exec(&r[pos].priority, &item.priority)
                invariant
                    rn == r@.len(),
                    0 <= pos <= rn,
                    forall|j: int| 0 <= j < pos ==> !prio_lt(r@[j].priority, item.priority),
                decreases rn - pos,
            {
                pos = pos + 1;
            }
            proof {
                lemma_insert_pass_at(r@, item, pos as int);
                lemma_insert_pass_sorted(r@, item);
            }
            r.insert(pos, item);
            k2 = k2 + 1;
        }
        proof {
            assert(dd@.subrange(0, sn as int) =~= dd@);
        }
        r
    }
}

/// The ordered items of channel `c`, or nothing when the channel has no
/// entry.
pub open spec fn chan_items(m: Map<SubV, (Seq<usize>, Seq<PassItem>)>, c: SubV) -> Seq<PassItem> {
    if m.dom().contains(c) {
        m[c].1
    } else {
        Seq::empty()
    }
}

/// All matched channels' items, concatenated in channel order.
pub open spec fn spec_collect(
    m: Map<SubV, (Seq<usize>, Seq<PassItem>)>,
    chans: Seq<SubV>,
) -> Seq<PassItem>
    decreases chans.len(),
{
    if chans.len() == 0 {
        Seq::empty()
    } else {
        spec_collect(m, chans.drop_last()) + chan_items(m, chans.last())
    }
}

/// Each subscriber id's first occurrence, in order: the first channel match
/// decides the recorded priority.
pub open spec fn spec_dedup(s: Seq<PassItem>) -> Seq<PassItem>
    decreases s.len(),
{
    if s.len() == 0 {
        Seq::empty()
    } else {
        let rest = spec_dedup(s.drop_last());
        if has_id(s.drop_last(), s.last().id) {
            rest
        } else {
            rest.push(s.last())
        }
    }
}

/// Stable sort, descending by priority: subscribers with no priority sort
/// after all with one, and equal priorities keep their order.
pub open spec fn spec_sort(s: Seq<PassItem>) -> Seq<PassItem>
    decreases s.len(),
{
    if s.len() == 0 {
        Seq::empty()
    } else {
        insert_pass(spec_sort(s.drop_last()), s.last())
    }
}

/// Delivery order for an event published on `chans`.
pub open spec fn spec_subscribers(
    m: Map<SubV, (Seq<usize>, Seq<PassItem>)>,
    chans: Seq<SubV>,
) -> Seq<PassItem> {
    spec_sort(spec_dedup(spec_collect(m, chans)))
}

/// `spec_sort` really sorts.
pub proof fn lemma_spec_sort_sorted(s: Seq<PassItem>)
    ensures
        sorted_pass(spec_sort(s)),
    decreases s.len(),
{
    if s.len() > 0 {
        lemma_spec_sort_sorted(s.drop_last());
        lemma_insert_pass_sorted(spec_sort(s.drop_last()), s.last());
    }
}

/// The position at which `insert_pass` places a new item.
pub open spec fn insert_pos(l: Seq<PassItem>, p: Option<u32>) -> int
    decreases l.len(),
{
    if l.len() == 0 {
        0
    } else if prio_lt(l[0].priority, p) {
        0
    } else {
        1 + insert_pos(l.drop_first(), p)
    }
}

pub proof fn lemma_insert_pos(l: Seq<PassItem>, p: Option<u32>)
    ensures
        0 <= insert_pos(l, p) <= l.len(),
        forall|j: int| 0 <= j < insert_pos(l, p) ==> !prio_lt(l[j].priority, p),
        insert_pos(l, p) < l.len() ==> prio_lt(l[insert_pos(l, p)].priority, p),
    decreases l.len(),
{
    if l.len() > 0 && !prio_lt(l[0].priority, p) {
        lemma_insert_pos(l.drop_first(), p);
        assert forall|j: int| 0 <= j < insert_pos(l, p) implies !prio_lt(l[j].priority, p) by {
            if j > 0 {
                assert(l.drop_first()[j - 1] == l[j]);
            }
        }
        if insert_pos(l, p) < l.len() {
            assert(l.drop_first()[insert_pos(l, p) - 1] == l[insert_pos(l, p)]);
        }
    }
}

/// The items of one single priority, in their list order.
pub open spec fn at_priority(l: Seq<PassItem>, p: Option<u32>) -> Seq<PassItem>
    decreases l.len(),
{
    if l.len() == 0 {
        Seq::empty()
    } else {
        let rest = at_priority(l.drop_last(), p);
        if l.last().priority == p {
            rest.push(l.last())
        } else {
            rest
        }
    }
}

/// Taking one priority's slice distributes over concatenation.
pub proof fn lemma_at_priority_add(a: Seq<PassItem>, b: Seq<PassItem>, p: Option<u32>)
    ensures
        at_priority(a + b, p) == at_priority(a, p) + at_priority(b, p),
    decreases b.len(),
{
    if b.len() == 0 {
        assert(a + b =~= a);
        assert(at_priority(a, p) + at_priority(b, p) =~= at_priority(a, p));
    } else {
        lemma_at_priority_add(a, b.drop_last(), p);
        assert((a + b).drop_last() =~= a + b.drop_last());
        assert((a + b).last() == b.last());
        if b.last().priority == p {
            assert(at_priority(a, p) + at_priority(b.drop_last(), p).push(b.last())
                =~= (at_priority(a, p) + at_priority(b.drop_last(), p)).push(b.last()));
        }
    }
}

/// Each element of a priority slice carries that priority and comes from the
/// list.
pub proof fn lemma_at_priority_elems(l: Seq<PassItem>, p: Option<u32>)
    ensures
        forall|i: int|
            0 <= i < at_priority(l, p).len() ==> (#[trigger] at_priority(l, p)[i].priority == p
                && exists|v: int| 0 <= v < l.len() && l[v] == at_priority(l, p)[i]),
    decreases l.len(),
{
    if l.len() > 0 {
        lemma_at_priority_elems(l.drop_last(), p);
        let rest = at_priority(l.drop_last(), p);
        let f = at_priority(l, p);
        assert(forall|i: int|
            0 <= i < l.drop_last().len() ==> #[trigger] l.drop_last()[i] == l[i]);
        assert forall|i: int| 0 <= i < f.len() implies (#[trigger] f[i].priority == p && exists|
            v: int,
        | 0 <= v < l.len() && l[v] == f[i]) by {
            if l.last().priority == p && i == f.len() - 1 {
                assert(l[l.len() - 1] == f[i]);
            } else {
                assert(f[i] == rest[i]);
                let v = choose|v: int|
                    0 <= v < l.drop_last().len() && l.drop_last()[v] == rest[i];
                assert(l[v] == f[i]);
            }
        }
    }
}

/// Subscribing keeps insertion order within each single priority: the slice
/// of one priority, taken from the ordered list, gains the new item at its
/// end when the priorities agree and is untouched otherwise.
pub proof fn lemma_insert_pass_filter(l: Seq<PassItem>, it: PassItem, p: Option<u32>)
    requires
        sorted_pass(l),
    ensures
        it.priority == p ==> at_priority(insert_pass(l, it), p) == at_priority(l, p).push(it),
        it.priority != p ==> at_priority(insert_pass(l, it), p) == at_priority(l, p),
{
    reveal_with_fuel(at_priority, 2);
    let pos = insert_pos(l, it.priority);
    lemma_insert_pos(l, it.priority);
    lemma_insert_pass_at(l, it, pos);
    let pre = l.subrange(0, pos);
    let post = l.subrange(pos, l.len() as int);
    assert(l.insert(pos, it) =~= pre + seq![it] + post);
    assert(l =~= pre + post);
    lemma_at_priority_add(pre + seq![it], post, p);
    lemma_at_priority_add(pre, seq![it], p);
    lemma_at_priority_add(pre, post, p);
    assert(seq![it].drop_last() =~= Seq::<PassItem>::empty());
    if it.priority == p {
        assert(at_priority(seq![it], p) =~= seq![it]);
        // nothing at or after the insertion point carries priority p
        assert(at_priority(post, p).len() == 0) by {
            lemma_at_priority_elems(post, p);
            if at_priority(post, p).len() > 0 {
                let e = at_priority(post, p)[0];
                let w = choose|w: int| 0 <= w < post.len() && post[w] == e;
                assert(post[w] == l[pos + w]);
                assert(prio_lt(l[pos].priority, it.priority));
                if w > 0 {
                    assert(!prio_lt(l[pos].priority, l[pos + w].priority));
                }
                assert(prio_lt(l[pos + w].priority, it.priority));
                assert(e.priority == p && p == it.priority);
                assert(prio_lt(p, p));
                assert(false);
            }
        }
        assert(at_priority(post, p) =~= Seq::<PassItem>::empty());
        assert(at_priority(insert_pass(l, it), p) =~= at_priority(l, p).push(it));
    } else {
        assert(at_priority(seq![it], p) =~= Seq::<PassItem>::empty());
        assert(at_priority(insert_pass(l, it), p) =~= at_priority(l, p));
    }
}

/// Subscribing and then unsubscribing the same id restores the registry
/// exactly, provided the id was not subscribed there before.
pub proof fn lemma_subscribe_unsubscribe(
    m: Map<SubV, (Seq<usize>, Seq<PassItem>)>,
    c: SubV,
    it: PassItem,
)
    requires
        m.dom().contains(c) ==> {
            &&& sorted_pass(m[c].1)
            &&& m[c].1.len() > 0
            &&& !m[c].0.contains(it.id)
            &&& !has_id(m[c].1, it.id)
        },
    ensures
        after_unsubscribe(after_subscribe(m, c, it).0, c, it.id) == (m, true),
{
    if m.dom().contains(c) {
        let ms = m[c].0;
        let its = m[c].1;
        let ms2 = ms.push(it.id);
        let its2 = insert_pass(its, it);
        let m2 = m.insert(c, (ms2, its2));
        assert(after_subscribe(m, c, it).0 == m2);
        assert(ms2.contains(it.id)) by {
            assert(ms2[ms2.len() - 1] == it.id);
        }
        lemma_remove_fresh_pass(its, it);
        assert(its2.remove(find_pass(its2, it.id)) == its);
        assert(ms2.remove_value(it.id) == ms) by {
            ms2.index_of_first_ensures(it.id);
            match ms2.index_of_first(it.id) {
                Some(i0) => {
                    assert(ms2[i0] == it.id);
                    if i0 < ms2.len() - 1 {
                        assert(ms[i0] == it.id);
                        assert(ms.contains(it.id));
                        assert(false);
                    }
                    assert(i0 == ms2.len() - 1);
                    assert(ms2.remove(i0) =~= ms);
                },
                None => {
                    assert(false);
                },
            }
        }
        assert(its.len() > 0);
        assert(m2.insert(c, (ms, its)) =~= m);
    } else {
        let m2 = m.insert(c, (seq![it.id], seq![it]));
        assert(after_subscribe(m, c, it).0 == m2);
        assert(seq![it.id].contains(it.id)) by {
            assert(seq![it.id][0] == it.id);
        }
        assert(find_pass(seq![it], it.id) == 0);
        assert(seq![it].remove(0) =~= Seq::<PassItem>::empty());
        assert(seq![it.id].remove_value(it.id) =~= Seq::<usize>::empty()) by {
            seq![it.id].index_of_first_ensures(it.id);
            match seq![it.id].index_of_first(it.id) {
                Some(i0) => {
                    assert(i0 == 0);
                },
                None => {
                    assert(seq![it.id][0] == it.id);
                    assert(false);
                },
            }
        }
        assert(m2.remove(c) =~= m);
    }
}

/// In a well-formed registry the membership set and the ordered list of
/// every channel hold the same subscriber ids.
pub proof fn lemma_passes_members(ps: Passes)
    requires
        ps.wf(),
    ensures
        forall|c: SubV| #[trigger] ps@.dom().contains(c) ==> (forall|id: usize|
            #[trigger] ps@[c].0.contains(id) <==> has_id(ps@[c].1, id)),
        forall|c: SubV| #[trigger] ps@.dom().contains(c) ==> sorted_pass(ps@[c].1),
{
    lemma_amap_dom::<SubV, (Seq<usize>, Seq<PassItem>)>(ps.pairs());
    assert forall|c: SubV| #[trigger] ps@.dom().contains(c) implies (forall|id: usize|
        #[trigger] ps@[c].0.contains(id) <==> has_id(ps@[c].1, id)) && sorted_pass(ps@[c].1) by {
        let i = choose|i: int| 0 <= i < ps.pairs().len() && ps.pairs()[i].0 == c;
        lemma_amap_get(ps.pairs(), i);
        assert(entry_wf(ps.pairs()[i].1));
    }
}

} // verus!
