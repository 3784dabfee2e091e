//! The reference invariant: every id appearing in any pass subscriber list
//! or any pool watcher list is a key of the connection table. The lemmas
//! here carry the invariant over every way the broker moves the table: a
//! fresh registry satisfies it; creating a component, subscribing a known
//! child, watching by a known component, the reference-free updates, and
//! removing a leaf (which purges every trace of it) all preserve it.

use vstd::prelude::*;

use crate::channel::SubV;
use crate::passes::PassItem;
use crate::passes::after_subscribe;
use crate::passes::after_unsubscribe;
use crate::passes::drop_id_items;
use crate::passes::has_id;
use crate::passes::lemma_filter_pass;
use crate::passes::purge_passes;
use crate::passes::sorted_pass;
use crate::pool::ItemV;
use crate::pool::drop_watcher;
use crate::pool::lemma_drop_watcher_keeps;
use crate::pool::pool_purged;
use crate::pool::purge_item;
use crate::pool::watchers_distinct;
use crate::registry::ConnV;
use crate::registry::Registry;
use crate::registry::purge_conn;

verus! {

/// One component's outward references all land in `dom`.
pub open spec fn conn_refs_ok(dom: Set<usize>, c: ConnV) -> bool {
    &&& forall|ch: SubV| #[trigger]
        c.passes.dom().contains(ch) ==> (forall|j: int|
            0 <= j < c.passes[ch].1.len() ==> dom.contains(
                (#[trigger] c.passes[ch].1[j]).id,
            ))
    &&& forall|l: Seq<u8>| #[trigger]
        c.pool.dom().contains(l) ==> (forall|j: int|
            0 <= j < c.pool[l].1.len() ==> dom.contains(#[trigger] c.pool[l].1[j]))
}

/// Every id in any pass subscriber list or any pool watcher list of any
/// component is present in the connection table.
pub open spec fn refs_ok(cm: Map<usize, ConnV>) -> bool {
    forall|i: usize| #[trigger] cm.dom().contains(i) ==> conn_refs_ok(cm.dom(), cm[i])
}

/// A fresh registry refers to nothing: its only component has no passes and
/// no pool entries.
pub proof fn lemma_refs_initial(r: Registry)
    requires
        r.cmap().dom() =~= Set::<usize>::empty().insert(0),
        r.cmap()[0].passes == Map::<SubV, (Seq<usize>, Seq<PassItem>)>::empty(),
        r.cmap()[0].pool == Map::<Seq<u8>, ItemV>::empty(),
    ensures
        refs_ok(r.cmap()),
{
}

/// Overwriting one component with a value whose references are in order
/// keeps the invariant: the table's keys do not move.
pub proof fn lemma_refs_update(cm: Map<usize, ConnV>, target: usize, c1: ConnV)
    requires
        refs_ok(cm),
        cm.dom().contains(target),
        conn_refs_ok(cm.dom(), c1),
    ensures
        refs_ok(cm.insert(target, c1)),
{
    let cm1 = cm.insert(target, c1);
    assert(cm1.dom() =~= cm.dom());
    assert forall|i: usize| #[trigger] cm1.dom().contains(i) implies conn_refs_ok(
        cm1.dom(),
        cm1[i],
    ) by {
        if i != target {
            assert(cm1[i] == cm[i]);
        }
    }
}

/// A component whose tables do not change refers to nothing new.
pub proof fn lemma_conn_refs_same(dom: Set<usize>, c0: ConnV, c1: ConnV)
    requires
        conn_refs_ok(dom, c0),
        c1.passes == c0.passes,
        c1.pool == c0.pool,
    ensures
        conn_refs_ok(dom, c1),
{
}

/// Subscribing a known id keeps the component's references in order.
pub proof fn lemma_conn_refs_subscribe(
    dom: Set<usize>,
    c0: ConnV,
    channel: SubV,
    item: PassItem,
)
    requires
        conn_refs_ok(dom, c0),
        dom.contains(item.id),
        c0.passes.dom().contains(channel) ==> sorted_pass(c0.passes[channel].1),
    ensures
        conn_refs_ok(dom, ConnV { passes: after_subscribe(c0.passes, channel, item).0, ..c0 }),
{
    let m1 = after_subscribe(c0.passes, channel, item).0;
    let c1 = ConnV { passes: m1, ..c0 };
    if c0.passes.dom().contains(channel) && !c0.passes[channel].0.contains(item.id) {
        crate::passes::lemma_insert_pass_sorted(c0.passes[channel].1, item);
        assert forall|ch: SubV| #[trigger] c1.passes.dom().contains(ch) implies (forall|j: int|
            0 <= j < c1.passes[ch].1.len() ==> dom.contains(
                (#[trigger] c1.passes[ch].1[j]).id,
            )) by {
            if ch == channel {
                let l1 = c1.passes[ch].1;
                assert forall|j: int| 0 <= j < l1.len() implies dom.contains(
                    (#[trigger] l1[j]).id,
                ) by {
                    assert(l1[j] == item || exists|k: int|
                        0 <= k < c0.passes[channel].1.len() && c0.passes[channel].1[k] == l1[j]);
                    if l1[j] != item {
                        let k = choose|k: int|
                            0 <= k < c0.passes[channel].1.len() && c0.passes[channel].1[k]
                                == l1[j];
                    }
                }
            } else {
                assert(c1.passes[ch] == c0.passes[ch]);
            }
        }
    } else if !c0.passes.dom().contains(channel) {
        assert forall|ch: SubV| #[trigger] c1.passes.dom().contains(ch) implies (forall|j: int|
            0 <= j < c1.passes[ch].1.len() ==> dom.contains(
                (#[trigger] c1.passes[ch].1[j]).id,
            )) by {
            if ch == channel {
                assert(c1.passes[ch].1 =~= seq![item]);
            } else {
                assert(c1.passes[ch] == c0.passes[ch]);
            }
        }
    }
}

/// Unsubscribing keeps the component's references in order: the list only
/// loses an item.
pub proof fn lemma_conn_refs_unsubscribe(dom: Set<usize>, c0: ConnV, channel: SubV, id: usize)
    requires
        conn_refs_ok(dom, c0),
        (c0.passes.dom().contains(channel) && c0.passes[channel].0.contains(id)) ==> has_id(
            c0.passes[channel].1,
            id,
        ),
    ensures
        conn_refs_ok(
            dom,
            ConnV { passes: after_unsubscribe(c0.passes, channel, id).0, ..c0 },
        ),
{
    let m1 = after_unsubscribe(c0.passes, channel, id).0;
    let c1 = ConnV { passes: m1, ..c0 };
    if c0.passes.dom().contains(channel) && c0.passes[channel].0.contains(id) {
        let its = c0.passes[channel].1;
        let f = crate::passes::find_pass(its, id);
        crate::passes::lemma_find_pass(its, id);
        assert(0 <= f < its.len()) by {
            if f == -1 {
                let w = choose|w: int| 0 <= w < its.len() && its[w].id == id;
            }
        }
        assert forall|ch: SubV| #[trigger] c1.passes.dom().contains(ch) implies (forall|j: int|
            0 <= j < c1.passes[ch].1.len() ==> dom.contains(
                (#[trigger] c1.passes[ch].1[j]).id,
            )) by {
            if ch == channel && 0 <= f < its.len() {
                let l1 = c1.passes[ch].1;
                assert forall|j: int| 0 <= j < l1.len() implies dom.contains(
                    (#[trigger] l1[j]).id,
                ) by {
                    let j2 = if j < f {
                        j
                    } else {
                        j + 1
                    };
                    assert(l1[j] == its[j2]);
                }
            } else if ch != channel {
                assert(c1.passes[ch] == c0.passes[ch]);
            }
        }
    }
}

/// Watching by a known id keeps the component's references in order.
pub proof fn lemma_conn_refs_watch(dom: Set<usize>, c0: ConnV, label: Seq<u8>, watcher: usize)
    requires
        conn_refs_ok(dom, c0),
        dom.contains(watcher),
    ensures
        conn_refs_ok(
            dom,
            ConnV {
                pool: {
                    let m = c0.pool;
                    if m.dom().contains(label) {
                        if m[label].1.contains(watcher) {
                            m
                        } else {
                            m.insert(label, (m[label].0, m[label].1.push(watcher)))
                        }
                    } else {
                        m.insert(label, (None, seq![watcher]))
                    }
                },
                ..c0
            },
        ),
{
    let m = c0.pool;
    let m1 = if m.dom().contains(label) {
        if m[label].1.contains(watcher) {
            m
        } else {
            m.insert(label, (m[label].0, m[label].1.push(watcher)))
        }
    } else {
        m.insert(label, (None, seq![watcher]))
    };
    let c1 = ConnV { pool: m1, ..c0 };
    assert forall|l: Seq<u8>| #[trigger] c1.pool.dom().contains(l) implies (forall|j: int|
        0 <= j < c1.pool[l].1.len() ==> dom.contains(#[trigger] c1.pool[l].1[j])) by {
        if l == label {
            let ws1 = c1.pool[l].1;
            assert forall|j: int| 0 <= j < ws1.len() implies dom.contains(
                #[trigger] ws1[j],
            ) by {
                if m.dom().contains(label) && !m[label].1.contains(watcher) {
                    if j < ws1.len() - 1 {
                        assert(ws1[j] == m[label].1[j]);
                    }
                } else if !m.dom().contains(label) {
                    assert(ws1 =~= seq![watcher]);
                }
            }
        } else {
            assert(c1.pool[l] == c0.pool[l]);
        }
    }
}

/// Creating a component preserves the invariant: the table only grows, the
/// new component refers to nothing, and its parent's lists are untouched.
pub proof fn lemma_refs_create(cm: Map<usize, ConnV>, pid: usize, id: usize, pv: ConnV, nv: ConnV)
    requires
        refs_ok(cm),
        cm.dom().contains(pid),
        pv.passes == cm[pid].passes,
        pv.pool == cm[pid].pool,
        nv.passes == Map::<SubV, (Seq<usize>, Seq<PassItem>)>::empty(),
        nv.pool == Map::<Seq<u8>, ItemV>::empty(),
    ensures
        refs_ok(cm.insert(pid, pv).insert(id, nv)),
{
    let cm1 = cm.insert(pid, pv).insert(id, nv);
    assert forall|i: usize| #[trigger] cm1.dom().contains(i) implies conn_refs_ok(
        cm1.dom(),
        cm1[i],
    ) by {
        if i == id {
        } else if i == pid && pid != id {
            assert(conn_refs_ok(cm.dom(), cm[pid]));
            assert forall|ch: SubV| #[trigger] pv.passes.dom().contains(ch) implies (forall|
                j: int,
            |
                0 <= j < pv.passes[ch].1.len() ==> cm1.dom().contains(
                    (#[trigger] pv.passes[ch].1[j]).id,
                )) by {
                assert(cm[pid].passes.dom().contains(ch));
                assert forall|j: int| 0 <= j < pv.passes[ch].1.len() implies cm1.dom().contains(
                    (#[trigger] pv.passes[ch].1[j]).id,
                ) by {
                    assert(cm.dom().contains(cm[pid].passes[ch].1[j].id));
                }
            }
            assert forall|l: Seq<u8>| #[trigger] pv.pool.dom().contains(l) implies (forall|
                j: int,
            | 0 <= j < pv.pool[l].1.len() ==> cm1.dom().contains(
                #[trigger] pv.pool[l].1[j],
            )) by {
                assert(cm[pid].pool.dom().contains(l));
                assert forall|j: int| 0 <= j < pv.pool[l].1.len() implies cm1.dom().contains(
                    #[trigger] pv.pool[l].1[j],
                ) by {
                    assert(cm.dom().contains(cm[pid].pool[l].1[j]));
                }
            }
        } else {
            assert(cm1[i] == cm[i]);
            assert(conn_refs_ok(cm.dom(), cm[i]));
            assert forall|ch: SubV| #[trigger] cm1[i].passes.dom().contains(ch) implies (forall|
                j: int,
            |
                0 <= j < cm1[i].passes[ch].1.len() ==> cm1.dom().contains(
                    (#[trigger] cm1[i].passes[ch].1[j]).id,
                )) by {
                assert forall|j: int|
                    0 <= j < cm1[i].passes[ch].1.len() implies cm1.dom().contains(
                    (#[trigger] cm1[i].passes[ch].1[j]).id,
                ) by {
                    assert(cm.dom().contains(cm[i].passes[ch].1[j].id));
                }
            }
            assert forall|l: Seq<u8>| #[trigger] cm1[i].pool.dom().contains(l) implies (forall|
                j: int,
            | 0 <= j < cm1[i].pool[l].1.len() ==> cm1.dom().contains(
                #[trigger] cm1[i].pool[l].1[j],
            )) by {
                assert forall|j: int|
                    0 <= j < cm1[i].pool[l].1.len() implies cm1.dom().contains(
                    #[trigger] cm1[i].pool[l].1[j],
                ) by {
                    assert(cm.dom().contains(cm[i].pool[l].1[j]));
                }
            }
        }
    }
}

/// Removing a leaf preserves the invariant: every trace of the departed id
/// is purged from the survivors, and what stays referred to survivors all
/// along.
pub proof fn lemma_refs_remove_leaf(cm: Map<usize, ConnV>, id: usize)
    requires
        refs_ok(cm),
        forall|i: usize| #[trigger]
            cm.dom().contains(i) ==> (forall|ch: SubV| #[trigger]
                cm[i].passes.dom().contains(ch) ==> sorted_pass(cm[i].passes[ch].1)) && (forall|
                l: Seq<u8>,
            | #[trigger] cm[i].pool.dom().contains(l) ==> watchers_distinct(cm[i].pool[l].1)),
    ensures
        refs_ok(
            Map::new(
                |x: usize| cm.dom().contains(x) && x != id,
                |x: usize| purge_conn(cm[x], id),
            ),
        ),
{
    let cm1 = Map::new(
        |x: usize| cm.dom().contains(x) && x != id,
        |x: usize| purge_conn(cm[x], id),
    );
    assert forall|i: usize| #[trigger] cm1.dom().contains(i) implies conn_refs_ok(
        cm1.dom(),
        cm1[i],
    ) by {
        let c0 = cm[i];
        let c1 = cm1[i];
        assert(c1 == purge_conn(c0, id));
        // the purged passes: each surviving item was there before and does
        // not carry the departed id
        assert forall|ch: SubV| #[trigger] c1.passes.dom().contains(ch) implies (forall|j: int|
            0 <= j < c1.passes[ch].1.len() ==> cm1.dom().contains(
                (#[trigger] c1.passes[ch].1[j]).id,
            )) by {
            assert(c1.passes == purge_passes(c0.passes, id));
            assert(c0.passes.dom().contains(ch));
            assert(c1.passes[ch].1 == drop_id_items(c0.passes[ch].1, id));
            lemma_filter_pass(c0.passes[ch].1, id);
            assert forall|j: int| 0 <= j < c1.passes[ch].1.len() implies cm1.dom().contains(
                (#[trigger] c1.passes[ch].1[j]).id,
            ) by {
                let l1 = c1.passes[ch].1;
                assert(exists|v: int|
                    0 <= v < c0.passes[ch].1.len() && c0.passes[ch].1[v] == l1[j]);
                let v = choose|v: int|
                    0 <= v < c0.passes[ch].1.len() && c0.passes[ch].1[v] == l1[j];
                assert(cm.dom().contains(l1[j].id));
                assert(has_id(l1, l1[j].id));
                assert(l1[j].id != id);
            }
        }
        // the purged watchers likewise
        assert forall|l: Seq<u8>| #[trigger] c1.pool.dom().contains(l) implies (forall|j: int|
            0 <= j < c1.pool[l].1.len() ==> cm1.dom().contains(#[trigger] c1.pool[l].1[j])) by {
            assert(c1.pool == pool_purged(c0.pool, id));
            assert(c0.pool.dom().contains(l));
            assert(c1.pool[l] == purge_item(c0.pool[l], id));
            assert(c1.pool[l].1 == drop_watcher(c0.pool[l].1, id));
            lemma_drop_watcher_keeps(c0.pool[l].1, id);
            assert forall|j: int| 0 <= j < c1.pool[l].1.len() implies cm1.dom().contains(
                #[trigger] c1.pool[l].1[j],
            ) by {
                let ws1 = c1.pool[l].1;
                assert(ws1[j] != id);
                assert(ws1.contains(ws1[j]));
                assert(c0.pool[l].1.contains(ws1[j]));
                let v = choose|v: int|
                    0 <= v < c0.pool[l].1.len() && c0.pool[l].1[v] == ws1[j];
                assert(cm.dom().contains(ws1[j]));
            }
        }
    }
}


/// Removing a whole subtree preserves the invariant: every reference into
/// the subtree is purged from the survivors, and what stays referred to
/// survivors all along.
pub proof fn lemma_refs_remove_subtree(cm: Map<usize, ConnV>, id: usize, rem: Seq<usize>)
    requires
        refs_ok(cm),
        cm.dom().contains(id),
        forall|y: usize| #[trigger]
            rem.contains(y) <==> (cm.dom().contains(y) && crate::discrim::is_prefix_of(
                cm[id].discrim,
                cm[y].discrim,
            )),
    ensures
        refs_ok(
            Map::new(
                |x: usize| cm.dom().contains(x) && !crate::discrim::is_prefix_of(
                    cm[id].discrim,
                    cm[x].discrim,
                ),
                |x: usize| crate::registry::purge_conn_many(cm[x], rem),
            ),
        ),
{
    let d = cm[id].discrim;
    let cm1 = Map::new(
        |x: usize| cm.dom().contains(x) && !crate::discrim::is_prefix_of(d, cm[x].discrim),
        |x: usize| crate::registry::purge_conn_many(cm[x], rem),
    );
    assert forall|i: usize| #[trigger] cm1.dom().contains(i) implies conn_refs_ok(
        cm1.dom(),
        cm1[i],
    ) by {
        let c0 = cm[i];
        let c1 = cm1[i];
        assert(c1.passes == crate::passes::purge_passes_many(c0.passes, rem));
        assert(c1.pool == crate::pool::pool_purged_many(c0.pool, rem));
        crate::passes::lemma_purge_many_facts(c0.passes, rem);
        crate::pool::lemma_pool_many_facts(c0.pool, rem);
        assert forall|ch: SubV| #[trigger] c1.passes.dom().contains(ch) implies (forall|j: int|
            0 <= j < c1.passes[ch].1.len() ==> cm1.dom().contains(
                (#[trigger] c1.passes[ch].1[j]).id,
            )) by {
            assert(c0.passes.dom().contains(ch));
            assert forall|j: int| 0 <= j < c1.passes[ch].1.len() implies cm1.dom().contains(
                (#[trigger] c1.passes[ch].1[j]).id,
            ) by {
                let y = c1.passes[ch].1[j].id;
                assert(!rem.contains(y) && has_id(c0.passes[ch].1, y));
                let v = choose|v: int|
                    0 <= v < c0.passes[ch].1.len() && c0.passes[ch].1[v].id == y;
                assert(cm.dom().contains(y));
                assert(!crate::discrim::is_prefix_of(d, cm[y].discrim)) by {
                    if crate::discrim::is_prefix_of(d, cm[y].discrim) {
                        assert(rem.contains(y));
                    }
                }
            }
        }
        assert forall|l: Seq<u8>| #[trigger] c1.pool.dom().contains(l) implies (forall|j: int|
            0 <= j < c1.pool[l].1.len() ==> cm1.dom().contains(#[trigger] c1.pool[l].1[j])) by {
            assert(c0.pool.dom().contains(l));
            assert forall|j: int| 0 <= j < c1.pool[l].1.len() implies cm1.dom().contains(
                #[trigger] c1.pool[l].1[j],
            ) by {
                let y = c1.pool[l].1[j];
                assert(!rem.contains(y) && c0.pool[l].1.contains(y));
                let v = choose|v: int| 0 <= v < c0.pool[l].1.len() && c0.pool[l].1[v] == y;
                assert(cm.dom().contains(y));
                assert(!crate::discrim::is_prefix_of(d, cm[y].discrim)) by {
                    if crate::discrim::is_prefix_of(d, cm[y].discrim) {
                        assert(rem.contains(y));
                    }
                }
            }
        }
    }
}

} // verus!
