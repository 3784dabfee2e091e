//! The connection table: the id-keyed registry of components, their tree
//! topology, and the label registry. The id graph is a tree rooted at id 0;
//! `parent` and `children` are kept mutually consistent, and the label map
//! is a bijection between labels and ids.

use vstd::prelude::*;

use crate::assoc::amap;
use crate::assoc::has_key;
use crate::assoc::keys_unique;
use crate::assoc::lemma_amap_dom;
use crate::assoc::lemma_amap_get;
use crate::assoc::lemma_amap_push;
use crate::assoc::lemma_amap_remove;
use crate::assoc::lemma_amap_update;
use crate::channel::SubV;
use crate::channel::Subscription;
use crate::discrim::Discriminator;
use crate::discrim::is_prefix_of;
use crate::passes::PassItem;
use crate::passes::Passes;
use crate::pool::ItemV;
use crate::pool::Pool;
use crate::suppressor::SuppressItem;
use crate::suppressor::Suppressors;
use crate::util::bytes_eq;
use crate::util::dup_bytes;

verus! {

/// What a component is: a space contains other components and manages focus
/// among them; a process is a leaf that hosts a child program.
#[derive(Clone, Copy, PartialEq, Eq, Structural, Debug)]
pub enum ConnKind {
    Space,
    Process,
}

/// Focus state of a space: the space itself, or one child subtree.
#[derive(Clone, Copy, PartialEq, Eq, Structural, Debug)]
pub enum Focus {
    This,
    Children(usize),
}

/// One registered component.
pub struct Connection {
    /// path of ids from the root; empty for the master root
    pub discrim: Discriminator,
    /// the parent id; the root is its own parent
    pub parent: usize,
    /// ids of the direct children
    pub connections: Vec<usize>,
    /// whether an outbound (client) handle is currently attached
    pub client: bool,
    /// the component's unique label
    pub label: Vec<u8>,
    /// space or process
    pub kind: ConnKind,
    /// which part of this space is focused
    pub focus: Focus,
    /// the component's key-value pool
    pub pool: Pool,
    /// the component's channel suppressors
    pub suppressors: Suppressors,
    /// the space's subscription registry
    pub passes: Passes,
}

/// The mathematical value of a registered component.
pub ghost struct ConnV {
    pub discrim: Seq<usize>,
    pub parent: usize,
    pub children: Seq<usize>,
    pub client: bool,
    pub label: Seq<u8>,
    pub kind: ConnKind,
    pub focus: Focus,
    pub pool: Map<Seq<u8>, ItemV>,
    pub sups: Map<SubV, Seq<SuppressItem>>,
    pub sups_state: u32,
    pub sups_next: u32,
    pub passes: Map<SubV, (Seq<usize>, Seq<PassItem>)>,
}

/// The mathematical value of one connection.
pub open spec fn cv(c: Connection) -> ConnV {
    ConnV {
        discrim: c.discrim@,
        parent: c.parent,
        children: c.connections@,
        client: c.client,
        label: c.label@,
        kind: c.kind,
        focus: c.focus,
        pool: c.pool@,
        sups: c.suppressors@,
        sups_state: c.suppressors.spec_state_id(),
        sups_next: c.suppressors.spec_next_id(),
        passes: c.passes@,
    }
}

/// The tree and label invariants over the mathematical maps.
pub open spec fn tree_wf(cm: Map<usize, ConnV>, lm: Map<Seq<u8>, usize>) -> bool {
    &&& cm.dom().contains(0)
    &&& cm[0].parent == 0
    &&& cm[0].discrim == Seq::<usize>::empty()
    &&& cm[0].kind is Space
    &&& forall|i: usize| #[trigger]
        cm.dom().contains(i) ==> {
            &&& cm[i].children.no_duplicates()
            &&& forall|j: int|
                0 <= j < cm[i].children.len() ==> {
                    let c = #[trigger] cm[i].children[j];
                    &&& cm.dom().contains(c)
                    &&& c != 0
                    &&& cm[c].parent == i
                    &&& cm[c].discrim == cm[i].discrim.push(c)
                }
        }
    &&& forall|i: usize| #[trigger]
        cm.dom().contains(i) && i != 0 ==> {
            &&& cm[i].discrim.len() > 0
            &&& cm[i].discrim.last() == i
            &&& cm.dom().contains(cm[i].parent)
            &&& cm[i].parent != i
            &&& cm[cm[i].parent].discrim == cm[i].discrim.drop_last()
            &&& cm[cm[i].parent].children.contains(i)
            &&& cm[cm[i].parent].kind is Space
        }
    &&& forall|l: Seq<u8>| #[trigger]
        lm.dom().contains(l) ==> cm.dom().contains(lm[l]) && cm[lm[l]].label == l
    &&& forall|i: usize| #[trigger]
        cm.dom().contains(i) ==> lm.dom().contains(cm[i].label) && lm[cm[i].label] == i
}

/// The registry: the connection table and the label map.
pub struct Registry {
    pub conns: Vec<(usize, Connection)>,
    pub labels: Vec<(Vec<u8>, usize)>,
}

impl Registry {
    pub open spec fn cpairs(&self) -> Seq<(usize, ConnV)> {
        self.conns@.map_values(|p: (usize, Connection)| (p.0, cv(p.1)))
    }

    pub open spec fn lpairs(&self) -> Seq<(Seq<u8>, usize)> {
        self.labels@.map_values(|p: (Vec<u8>, usize)| (p.0@, p.1))
    }

    /// The connection table, as a map from id to component value.
    pub open spec fn cmap(&self) -> Map<usize, ConnV> {
        amap(self.cpairs())
    }

    /// The label registry, as a map from label to id.
    pub open spec fn lmap(&self) -> Map<Seq<u8>, usize> {
        amap(self.lpairs())
    }

    /// Well-formed: unique keys, the tree and label invariants, and every
    /// component's own tables well-formed.
    pub open spec fn wf(&self) -> bool {
        &&& keys_unique(self.cpairs())
        &&& keys_unique(self.lpairs())
        &&& tree_wf(self.cmap(), self.lmap())
        &&& forall|i: int|
            0 <= i < self.conns@.len() ==> {
                &&& (#[trigger] self.conns@[i]).1.pool.wf()
                &&& self.conns@[i].1.suppressors.wf()
                &&& self.conns@[i].1.passes.wf()
            }
    }
}

/// Why a component could not be created.
#[derive(Clone, Copy, PartialEq, Eq, Structural, Debug)]
pub enum CreateError {
    /// the id is already present in the table
    DuplicateId,
    /// the label is already bound to another component
    DuplicateLabel,
    /// the parent could not be resolved to an existing space
    UnknownParent,
}

/// How a new component names its parent.
pub enum ParentRef {
    ById(usize),
    ByLabel(Vec<u8>),
}

/// The parent a reference resolves to, if any. A parent label equal to the
/// new component's own label would name the new component itself; outside
/// the bootstrap of the root no such parent exists.
pub open spec fn resolve_parent(
    cm: Map<usize, ConnV>,
    lm: Map<Seq<u8>, usize>,
    parent: ParentRef,
    own_label: Seq<u8>,
) -> Option<usize> {
    match parent {
        ParentRef::ById(p) => if cm.dom().contains(p) {
            Some(p)
        } else {
            None
        },
        ParentRef::ByLabel(l) => if l@ == own_label {
            None
        } else if lm.dom().contains(l@) {
            Some(lm[l@])
        } else {
            None
        },
    }
}

impl Registry {
    /// A fresh registry holding only the master root: id 0, empty path,
    /// empty label, its own parent.
    pub fn new() -> (r: Registry)
        ensures
            r.wf(),
            r.cmap().dom() =~= Set::<usize>::empty().insert(0),
            r.cmap()[0].children == Seq::<usize>::empty(),
            r.cmap()[0].client == false,
            r.cmap()[0].focus == Focus::This,
            r.cmap()[0].pool == Map::<Seq<u8>, ItemV>::empty(),
            r.cmap()[0].sups == Map::<SubV, Seq<SuppressItem>>::empty(),
            r.cmap()[0].passes == Map::<SubV, (Seq<usize>, Seq<PassItem>)>::empty(),
            r.lmap() =~= Map::<Seq<u8>, usize>::empty().insert(Seq::<u8>::empty(), 0),
    {
        let root = Connection {
            discrim: Discriminator::master(),
            parent: 0,
            connections: Vec::new(),
            client: false,
            label: Vec::new(),
            kind: ConnKind::Space,
            focus: Focus::This,
            pool: Pool::new(Discriminator::master()),
            suppressors: Suppressors::new(),
            passes: Passes::new(),
        };
        let mut conns: Vec<(usize, Connection)> = Vec::new();
        conns.push((0, root));
        let mut labels: Vec<(Vec<u8>, usize)> = Vec::new();
        labels.push((Vec::new(), 0));
        let r = Registry { conns, labels };
        proof {
            assert(r.cpairs() =~= seq![(0usize, r.cpairs()[0].1)]);
            assert(r.lpairs() =~= seq![(Seq::<u8>::empty(), 0usize)]);
            lemma_amap_dom::<usize, ConnV>(r.cpairs());
            lemma_amap_get(r.cpairs(), 0);
            lemma_amap_dom::<Seq<u8>, usize>(r.lpairs());
            lemma_amap_get(r.lpairs(), 0);
            assert(r.cmap().dom() =~= Set::<usize>::empty().insert(0)) by {
                assert forall|i: usize| r.cmap().dom().contains(i) implies i == 0 by {
                    assert(has_key(r.cpairs(), i));
                    let w = choose|w: int| 0 <= w < r.cpairs().len() && r.cpairs()[w].0 == i;
                }
            }
            assert(r.lmap().dom() =~= Set::<Seq<u8>>::empty().insert(Seq::<u8>::empty())) by {
                assert forall|l: Seq<u8>| r.lmap().dom().contains(l) implies l
                    == Seq::<u8>::empty() by {
                    assert(has_key(r.lpairs(), l));
                    let w = choose|w: int| 0 <= w < r.lpairs().len() && r.lpairs()[w].0 == l;
                }
            }
            assert(tree_wf(r.cmap(), r.lmap())) by {
                assert forall|i: usize| #[trigger] r.cmap().dom().contains(i) implies {
                    &&& r.cmap()[i].children.no_duplicates()
                    &&& forall|j: int|
                        0 <= j < r.cmap()[i].children.len() ==> {
                            let c = #[trigger] r.cmap()[i].children[j];
                            &&& r.cmap().dom().contains(c)
                            &&& c != 0
                            &&& r.cmap()[c].parent == i
                            &&& r.cmap()[c].discrim == r.cmap()[i].discrim.push(c)
                        }
                } by {
                    assert(i == 0);
                    assert(r.cmap()[0].children.len() == 0);
                }
            }
        }
        r
    }

    /// The position of `id`'s entry in the table, if any.
    fn find_conn(&self, id: usize) -> (r: Option<usize>)
        ensures
            match r {
                Some(i) => i < self.cpairs().len() && self.cpairs()[i as int].0 == id,
                None => !has_key(self.cpairs(), id),
            },
    {
        let n: usize = self.conns.len();
        let mut i: usize = 0;
        while i < n
            invariant
                n == self.conns@.len(),
                n == self.cpairs().len(),
                0 <= i <= n,
                forall|j: int| 0 <= j < i ==> self.cpairs()[j].0 != id,
            decreases n - i,
        {
            if self.conns[i].0 == id {
                proof {
                    assert(self.cpairs()[i as int].0 == self.conns@[i as int].0);
                }
                return Some(i);
            }
            proof {
                assert(self.cpairs()[i as int].0 == self.conns@[i as int].0);
            }
            i = i + 1;
        }
        None
    }

    /// The position of `label`'s entry in the label registry, if any.
    fn find_label(&self, label: &Vec<u8>) -> (r: Option<usize>)
        ensures
            match r {
                Some(i) => i < self.lpairs().len() && self.lpairs()[i as int].0 == label@,
                None => !has_key(self.lpairs(), label@),
            },
    {
        let n: usize = self.labels.len();
        let mut i: usize = 0;
        while i < n
            invariant
                n == self.labels@.len(),
                n == self.lpairs().len(),
                0 <= i <= n,
                forall|j: int| 0 <= j < i ==> self.lpairs()[j].0 != label@,
            decreases n - i,
        {
            if bytes_eq(&self.labels[i].0, label) {
                proof {
                    assert(self.lpairs()[i as int].0 == self.labels@[i as int].0@);
                }
                return Some(i);
            }
            proof {
                assert(self.lpairs()[i as int].0 == self.labels@[i as int].0@);
            }
            i = i + 1;
        }
        None
    }

    /// The component registered under `id`, if any.
    pub fn get(&self, id: usize) -> (r: Option<&Connection>)
        requires
            self.wf(),
        ensures
            match r {
                Some(c) => self.cmap().dom().contains(id) && cv(*c) == self.cmap()[id]
                    && c.pool.wf() && c.suppressors.wf() && c.passes.wf(),
                None => !self.cmap().dom().contains(id),
            },
    {
        proof {
            lemma_amap_dom::<usize, ConnV>(self.cpairs());
        }
        match self.find_conn(id) {
            Some(i) => {
                proof {
                    lemma_amap_get(self.cpairs(), i as int);
                }
                Some(&self.conns[i].1)
            },
            None => None,
        }
    }

    /// The id a label is bound to, if any.
    pub fn id_of_label(&self, label: &Vec<u8>) -> (r: Option<usize>)
        requires
            self.wf(),
        ensures
            match r {
                Some(id) => self.lmap().dom().contains(label@) && self.lmap()[label@] == id,
                None => !self.lmap().dom().contains(label@),
            },
    {
        proof {
            lemma_amap_dom::<Seq<u8>, usize>(self.lpairs());
        }
        match self.find_label(label) {
            Some(i) => {
                proof {
                    lemma_amap_get(self.lpairs(), i as int);
                }
                Some(self.labels[i].1)
            },
            None => None,
        }
    }

    /// Attach or clear the outbound client handle flag of `id`: the message
    /// sender clears it when a write fails, and the connection layer sets it
    /// when a connect succeeds.
    #[verifier::rlimit(100)]
    #[verifier::spinoff_prover]
    pub fn set_client(&mut self, id: usize, on: bool)
        requires
            old(self).wf(),
        ensures
            final(self).wf(),
            final(self).lmap() == old(self).lmap(),
            final(self).cmap() == if old(self).cmap().dom().contains(id) {
                old(self).cmap().insert(
                    id,
                    ConnV { client: on, ..old(self).cmap()[id] },
                )
            } else {
                old(self).cmap()
            },
    {
        proof {
            lemma_amap_dom::<usize, ConnV>(self.cpairs());
        }
        match self.find_conn(id) {
            Some(i) => {
                let ghost old_pairs = self.cpairs();
                proof {
                    lemma_amap_get(old_pairs, i as int);
                }
                let (key, mut conn) = self.conns.remove(i);
                conn.client = on;
                self.conns.insert(i, (key, conn));
                proof {
                    let cm0 = amap(old_pairs);
                    let new_cv = ConnV { client: on, ..old_pairs[i as int].1 };
                    assert(cv(self.conns@[i as int].1) == new_cv);
                    assert(self.cpairs() =~= old_pairs.update(i as int, (id, new_cv)));
                    lemma_update_one(old_pairs, i as int, new_cv, self.lmap());
                    assert(self.cmap() == cm0.insert(id, new_cv));
                    assert forall|w: int| 0 <= w < self.conns@.len() implies {
                        &&& (#[trigger] self.conns@[w]).1.pool.wf()
                        &&& self.conns@[w].1.suppressors.wf()
                        &&& self.conns@[w].1.passes.wf()
                    } by {
                        if w != i {
                            assert(self.conns@[w] == old(self).conns@[w]);
                        }
                    }
                }
            },
            None => {
            },
        }
    }
}

impl Registry {
    /// Register a new component under `id`, below the parent the reference
    /// resolves to. The new component starts with no children, an empty
    /// pool, no suppressors and no passes; its path extends the parent's by
    /// its own id. Fails when the id or the label is taken, or when the
    /// parent does not resolve to an existing space.
    #[verifier::rlimit(100)]
    pub fn create(
        &mut self,
        id: usize,
        parent: ParentRef,
        client: bool,
        label: Vec<u8>,
        kind: ConnKind,
    ) -> (r: Result<(), CreateError>)
        requires
            old(self).wf(),
        ensures
            final(self).wf(),
            match r {
                Result::Err(CreateError::DuplicateId) => old(self).cmap().dom().contains(id)
                    && final(self).cmap() == old(self).cmap() && final(self).lmap() == old(
                    self,
                ).lmap(),
                Result::Err(CreateError::DuplicateLabel) => !old(self).cmap().dom().contains(id)
                    && old(self).lmap().dom().contains(label@) && final(self).cmap() == old(
                    self,
                ).cmap() && final(self).lmap() == old(self).lmap(),
                Result::Err(CreateError::UnknownParent) => {
                    &&& !old(self).cmap().dom().contains(id)
                    &&& !old(self).lmap().dom().contains(label@)
                    &&& match resolve_parent(old(self).cmap(), old(self).lmap(), parent, label@) {
                        Option::None => true,
                        Option::Some(p) => !(old(self).cmap()[p].kind is Space),
                    }
                    &&& final(self).cmap() == old(self).cmap()
                    &&& final(self).lmap() == old(self).lmap()
                },
                Result::Ok(()) => {
                    &&& !old(self).cmap().dom().contains(id)
                    &&& !old(self).lmap().dom().contains(label@)
                    &&& resolve_parent(old(self).cmap(), old(self).lmap(), parent, label@)
                        is Some
                    &&& {
                        let pid = resolve_parent(
                            old(self).cmap(),
                            old(self).lmap(),
                            parent,
                            label@,
                        )->Some_0;
                        &&& old(self).cmap()[pid].kind is Space
                        &&& final(self).cmap() == old(self).cmap().insert(
                            pid,
                            ConnV {
                                children: old(self).cmap()[pid].children.push(id),
                                ..old(self).cmap()[pid]
                            },
                        ).insert(
                            id,
                            ConnV {
                                discrim: old(self).cmap()[pid].discrim.push(id),
                                parent: pid,
                                children: Seq::empty(),
                                client,
                                label: label@,
                                kind,
                                focus: Focus::This,
                                pool: Map::empty(),
                                sups: Map::empty(),
                                sups_state: 0,
                                sups_next: 1,
                                passes: Map::empty(),
                            },
                        )
                        &&& final(self).lmap() == old(self).lmap().insert(label@, id)
                    }
                },
            },
    {
        proof {
            lemma_amap_dom::<usize, ConnV>(self.cpairs());
            lemma_amap_dom::<Seq<u8>, usize>(self.lpairs());
        }
        if let Some(_) = self.find_conn(id) {
            return Err(CreateError::DuplicateId);
        }
        if let Some(_) = self.find_label(&label) {
            return Err(CreateError::DuplicateLabel);
        }
        let pid_opt: Option<usize> = match &parent {
            ParentRef::ById(p) => {
                match self.find_conn(*p) {
                    Some(_) => Some(*p),
                    None => None,
                }
            },
            ParentRef::ByLabel(l) => {
                if bytes_eq(l, &label) {
                    None
                } else {
                    self.id_of_label(l)
                }
            },
        };
        proof {
            assert(match pid_opt {
                Option::Some(p) => resolve_parent(self.cmap(), self.lmap(), parent, label@)
                    == Option::<usize>::Some(p) && self.cmap().dom().contains(p),
                Option::None => resolve_parent(self.cmap(), self.lmap(), parent, label@)
                    is None,
            });
        }
        let pid = match pid_opt {
            Some(p) => p,
            None => {
                return Err(CreateError::UnknownParent);
            },
        };
        let pi = match self.find_conn(pid) {
            Some(pi) => pi,
            None => {
                proof {
                    assert(false);
                }
                return Err(CreateError::UnknownParent);
            },
        };
        proof {
            lemma_amap_get(self.cpairs(), pi as int);
        }
        let is_space = match self.conns[pi].1.kind {
            ConnKind::Space => true,
            ConnKind::Process => false,
        };
        if !is_space {
            return Err(CreateError::UnknownParent);
        }
        self.attach(id, pid, pi, client, label, kind);
        Ok(())
    }

    /// The mutation step of `create`, once every check has passed: link the
    /// new component under its parent and bind its label.
    #[verifier::rlimit(100)]
    #[verifier::spinoff_prover]
    fn attach(
        &mut self,
        id: usize,
        pid: usize,
        pi: usize,
        client: bool,
        label: Vec<u8>,
        kind: ConnKind,
    )
        requires
            old(self).wf(),
            old(self).cmap().dom().contains(pid),
            !old(self).cmap().dom().contains(id),
            !old(self).lmap().dom().contains(label@),
            id != 0,
            old(self).cmap()[pid].kind is Space,
            pi < old(self).cpairs().len(),
            old(self).cpairs()[pi as int].0 == pid,
        ensures
            final(self).wf(),
            final(self).cmap() == old(self).cmap().insert(
                pid,
                ConnV {
                    children: old(self).cmap()[pid].children.push(id),
                    ..old(self).cmap()[pid]
                },
            ).insert(
                id,
                ConnV {
                    discrim: old(self).cmap()[pid].discrim.push(id),
                    parent: pid,
                    children: Seq::empty(),
                    client,
                    label: label@,
                    kind,
                    focus: Focus::This,
                    pool: Map::empty(),
                    sups: Map::empty(),
                    sups_state: 0,
                    sups_next: 1,
                    passes: Map::empty(),
                },
            ),
            final(self).lmap() == old(self).lmap().insert(label@, id),
    {
        proof {
            lemma_amap_dom::<usize, ConnV>(self.cpairs());
            lemma_amap_dom::<Seq<u8>, usize>(self.lpairs());
            lemma_amap_get(self.cpairs(), pi as int);
        }
        let ghost cm0 = self.cmap();
        let ghost lm0 = self.lmap();
        let ghost old_pairs = self.cpairs();
        let ghost old_lpairs = self.lpairs();
        let (pkey, mut pconn) = self.conns.remove(pi);
        let child_discrim = pconn.discrim.child(id);
        let pool_home = child_discrim.clone();
        pconn.connections.push(id);
        self.conns.insert(pi, (pkey, pconn));
        let label_key = dup_bytes(&label);
        let newc = Connection {
            discrim: child_discrim,
            parent: pid,
            connections: Vec::new(),
            client,
            label,
            kind,
            focus: Focus::This,
            pool: Pool::new(pool_home),
            suppressors: Suppressors::new(),
            passes: Passes::new(),
        };
        let ghost labelv = newc.label@;
        self.conns.push((id, newc));
        self.labels.push((label_key, id));
        proof {
            let pv = ConnV { children: cm0[pid].children.push(id), ..cm0[pid] };
            let nv = ConnV {
                discrim: cm0[pid].discrim.push(id),
                parent: pid,
                children: Seq::empty(),
                client,
                label: labelv,
                kind,
                focus: Focus::This,
                pool: Map::empty(),
                sups: Map::empty(),
                sups_state: 0,
                sups_next: 1,
                passes: Map::empty(),
            };
            assert(self.cpairs() =~= old_pairs.update(pi as int, (pid, pv)).push((id, nv)));
            lemma_amap_update(old_pairs, pi as int, pv);
            lemma_amap_push(old_pairs.update(pi as int, (pid, pv)), id, nv);
            assert(self.cmap() == cm0.insert(pid, pv).insert(id, nv));
            assert(self.lpairs() =~= old_lpairs.push((labelv, id)));
            lemma_amap_push(old_lpairs, labelv, id);
            assert(self.lmap() == lm0.insert(labelv, id));
            let cm1 = self.cmap();
            let lm1 = self.lmap();
            // key uniqueness of the extended association lists
            crate::assoc::lemma_keys_unique_update_push(old_pairs, pi as int, pv, id, nv);
            assert(keys_unique(self.cpairs()));
            crate::assoc::lemma_keys_unique_push(old_lpairs, labelv, id);
            assert(keys_unique(self.lpairs()));
            // the tree and label invariants on the new maps
            assert(id != 0);
            lemma_create_tree_wf(cm0, lm0, id, pid, pv, nv);
            assert(tree_wf(cm1, lm1));
            // nested tables stay well-formed
            assert forall|w: int| 0 <= w < self.conns@.len() implies {
                &&& (#[trigger] self.conns@[w]).1.pool.wf()
                &&& self.conns@[w].1.suppressors.wf()
                &&& self.conns@[w].1.passes.wf()
            } by {
                if w < self.conns@.len() - 1 && w != pi {
                    assert(self.conns@[w] == old(self).conns@[w]);
                }
            }
        }
    }
}

/// Inserting a fresh component under an existing space keeps the tree and
/// label invariants.
#[verifier::rlimit(100)]
pub proof fn lemma_create_tree_wf(
    cm0: Map<usize, ConnV>,
    lm0: Map<Seq<u8>, usize>,
    id: usize,
    pid: usize,
    pv: ConnV,
    nv: ConnV,
)
    requires
        tree_wf(cm0, lm0),
        cm0.dom().contains(pid),
        !cm0.dom().contains(id),
        !lm0.dom().contains(nv.label),
        id != 0,
        cm0[pid].kind is Space,
        pv == (ConnV { children: cm0[pid].children.push(id), ..cm0[pid] }),
        nv.discrim == cm0[pid].discrim.push(id),
        nv.parent == pid,
        nv.children == Seq::<usize>::empty(),
    ensures
        tree_wf(cm0.insert(pid, pv).insert(id, nv), lm0.insert(nv.label, id)),
{
    let cm1 = cm0.insert(pid, pv).insert(id, nv);
    let lm1 = lm0.insert(nv.label, id);
    let labelv = nv.label;
            assert(cm1.dom().contains(0));
            assert forall|x: usize| #[trigger] cm1.dom().contains(x) implies {
                &&& cm1[x].children.no_duplicates()
                &&& forall|j: int|
                    0 <= j < cm1[x].children.len() ==> {
                        let c = #[trigger] cm1[x].children[j];
                        &&& cm1.dom().contains(c)
                        &&& c != 0
                        &&& cm1[c].parent == x
                        &&& cm1[c].discrim == cm1[x].discrim.push(c)
                    }
            } by {
                if x == id {
                    assert(cm1[x].children.len() == 0);
                } else if x == pid {
                    assert(cm1[x] == pv);
                    assert(cm0[pid].children.no_duplicates());
                    assert(pv.children.no_duplicates()) by {
                        assert forall|a: int, b: int|
                            0 <= a < b < pv.children.len() implies pv.children[a]
                            != pv.children[b] by {
                            if b == pv.children.len() - 1 {
                                assert(pv.children[a] == cm0[pid].children[a]);
                                assert(cm0.dom().contains(cm0[pid].children[a]));
                            } else {
                                assert(pv.children[a] == cm0[pid].children[a]);
                                assert(pv.children[b] == cm0[pid].children[b]);
                            }
                        }
                    }
                    assert forall|j: int| 0 <= j < pv.children.len() implies {
                        let c = #[trigger] pv.children[j];
                        &&& cm1.dom().contains(c)
                        &&& c != 0
                        &&& cm1[c].parent == pid
                        &&& cm1[c].discrim == cm1[pid].discrim.push(c)
                    } by {
                        let c = pv.children[j];
                        if j < pv.children.len() - 1 {
                            assert(c == cm0[pid].children[j]);
                            assert(cm0.dom().contains(c) && c != 0 && cm0[c].parent == pid
                                && cm0[c].discrim == cm0[pid].discrim.push(c));
                            assert(c != pid);
                            assert(c != id);
                            assert(cm1[c] == cm0[c]);
                        } else {
                            assert(c == id);
                        }
                    }
                } else {
                    assert(cm0.dom().contains(x));
                    assert(cm1[x] == cm0[x]);
                    assert forall|j: int| 0 <= j < cm1[x].children.len() implies {
                        let c = #[trigger] cm1[x].children[j];
                        &&& cm1.dom().contains(c)
                        &&& c != 0
                        &&& cm1[c].parent == x
                        &&& cm1[c].discrim == cm1[x].discrim.push(c)
                    } by {
                        let c = cm1[x].children[j];
                        assert(cm0[x].children[j] == c);
                        assert(cm0.dom().contains(c) && c != 0 && cm0[c].parent == x
                            && cm0[c].discrim == cm0[x].discrim.push(c));
                        assert(c != id);
                        if c == pid {
                            assert(cm1[c].parent == cm0[c].parent);
                            assert(cm1[c].discrim == cm0[c].discrim);
                        } else {
                            assert(cm1[c] == cm0[c]);
                        }
                    }
                }
            }
            assert forall|x: usize| #[trigger] cm1.dom().contains(x) && x != 0 implies {
                &&& cm1[x].discrim.len() > 0
                &&& cm1[x].discrim.last() == x
                &&& cm1.dom().contains(cm1[x].parent)
                &&& cm1[x].parent != x
                &&& cm1[cm1[x].parent].discrim == cm1[x].discrim.drop_last()
                &&& cm1[cm1[x].parent].children.contains(x)
                &&& cm1[cm1[x].parent].kind is Space
            } by {
                if x == id {
                    assert(cm1[id] == nv);
                    assert(nv.discrim.last() == id);
                    assert(nv.discrim.drop_last() =~= cm0[pid].discrim);
                    assert(pid != id);
                    assert(cm1[pid].children.contains(id)) by {
                        assert(pv.children[pv.children.len() - 1] == id);
                    }
                    assert(cm1[pid].kind == cm0[pid].kind);
                } else {
                    assert(cm0.dom().contains(x));
                    let px = cm0[x].parent;
                    assert(cm0.dom().contains(px) && px != x);
                    assert(px != id);
                    assert(cm1[x].parent == px);
                    assert(cm1[x].discrim == cm0[x].discrim);
                    if px == pid {
                        assert(cm1[px].discrim == cm0[px].discrim);
                        assert(cm1[px].children.contains(x)) by {
                            assert(cm0[px].children.contains(x));
                            let w = choose|w: int|
                                0 <= w < cm0[px].children.len() && cm0[px].children[w] == x;
                            assert(pv.children[w] == x);
                        }
                        assert(cm1[px].kind == cm0[px].kind);
                    } else {
                        assert(cm1[px] == cm0[px]);
                    }
                }
            }
            assert forall|l: Seq<u8>| #[trigger] lm1.dom().contains(l) implies
                cm1.dom().contains(lm1[l]) && cm1[lm1[l]].label == l by {
                if l == labelv {
                    assert(lm1[l] == id);
                } else {
                    assert(lm0.dom().contains(l));
                    let y = lm0[l];
                    assert(cm0.dom().contains(y) && cm0[y].label == l);
                    assert(y != id);
                    if y == pid {
                        assert(cm1[y].label == cm0[y].label);
                    } else {
                        assert(cm1[y] == cm0[y]);
                    }
                }
            }
            assert forall|x: usize| #[trigger] cm1.dom().contains(x) implies
                lm1.dom().contains(cm1[x].label) && lm1[cm1[x].label] == x by {
                if x == id {
                } else {
                    assert(cm0.dom().contains(x));
                    assert(cm1[x].label == cm0[x].label);
                    assert(lm0.dom().contains(cm0[x].label) && lm0[cm0[x].label] == x);
                    assert(cm0[x].label != labelv);
                }
            }
}

/// A surviving component after `id` left: the departed id disappears from
/// the children, the focus reverts to the space itself when the departed
/// child held it, and every pass and every pool watch of the departed id is
/// purged. Everything else is untouched.
pub open spec fn purge_conn(c: ConnV, id: usize) -> ConnV {
    ConnV {
        children: crate::pool::drop_watcher(c.children, id),
        focus: if c.focus == Focus::Children(id) {
            Focus::This
        } else {
            c.focus
        },
        passes: crate::passes::purge_passes(c.passes, id),
        pool: crate::pool::pool_purged(c.pool, id),
        ..c
    }
}

impl Registry {
    /// Remove the leaf component `id`: its entry and its label go; it leaves
    /// its parent's children; a focus it held reverts; and every pass and
    /// every pool watch referring to it is purged from the survivors, so no
    /// table keeps a dead id. The root and components that still have
    /// children stay (their children disconnect first, each with its own
    /// lifecycle event). Returns whether anything was removed.
    #[verifier::rlimit(100)]
    #[verifier::spinoff_prover]
    pub fn remove_leaf(&mut self, id: usize) -> (r: bool)
        requires
            old(self).wf(),
        ensures
            final(self).wf(),
            r == (id != 0 && old(self).cmap().dom().contains(id) && old(self).cmap()[
                id
            ].children.len() == 0),
            !r ==> final(self).cmap() == old(self).cmap() && final(self).lmap() == old(
                self,
            ).lmap(),
            r ==> final(self).cmap() == Map::new(
                |x: usize| old(self).cmap().dom().contains(x) && x != id,
                |x: usize| purge_conn(old(self).cmap()[x], id),
            ) && final(self).lmap() == old(self).lmap().remove(old(self).cmap()[id].label),
    {
        proof {
            lemma_amap_dom::<usize, ConnV>(self.cpairs());
            lemma_amap_dom::<Seq<u8>, usize>(self.lpairs());
        }
        if id == 0 {
            return false;
        }
        let ci = match self.find_conn(id) {
            Some(ci) => ci,
            None => {
                return false;
            },
        };
        proof {
            lemma_amap_get(self.cpairs(), ci as int);
        }
        if self.conns[ci].1.connections.len() > 0 {
            return false;
        }
        let ghost cm0 = self.cmap();
        let ghost lm0 = self.lmap();
        let ghost old_pairs = self.cpairs();
        let ghost old_lpairs = self.lpairs();
        let (rkey, removed) = self.conns.remove(ci);
        proof {
            lemma_amap_remove(old_pairs, ci as int);
            assert(self.cpairs() =~= old_pairs.remove(ci as int));
        }
        let li = match self.find_label(&removed.label) {
            Some(li) => li,
            None => {
                proof {
                    assert(lm0.dom().contains(cm0[id].label));
                    assert(has_key(old_lpairs, removed.label@));
                    assert(false);
                }
                return true;
            },
        };
        self.labels.remove(li);
        proof {
            lemma_amap_remove(old_lpairs, li as int);
            assert(self.lpairs() =~= old_lpairs.remove(li as int));
            assert(old_lpairs[li as int].0 == cm0[id].label);
            assert(self.lmap() == lm0.remove(cm0[id].label));
        }
        let ghost mid_pairs = old_pairs.remove(ci as int);
        let ghost mid_conns = self.conns@;
        let ghost mid_lpairs = self.lpairs();
        proof {
            assert(mid_lpairs == old_lpairs.remove(li as int));
        }
        let n: usize = self.conns.len();
        let mut w: usize = 0;
        while w < n
            invariant
                self.lpairs() == mid_lpairs,
                li < old_lpairs.len(),
                mid_lpairs == old_lpairs.remove(li as int),
                n == self.conns@.len(),
                n == mid_conns.len(),
                0 <= w <= n,
                mid_pairs.len() == n,
                forall|j: int|
                    0 <= j < n ==> (#[trigger] mid_pairs[j]) == (
                        mid_conns[j].0,
                        cv(mid_conns[j].1),
                    ),
                forall|j: int| w <= j < n ==> #[trigger] self.conns@[j] == mid_conns[j],
                forall|j: int|
                    w <= j < n ==> {
                        &&& (#[trigger] self.conns@[j]).1.pool.wf()
                        &&& self.conns@[j].1.suppressors.wf()
                        &&& self.conns@[j].1.passes.wf()
                    },
                forall|j: int|
                    0 <= j < w ==> (#[trigger] self.cpairs()[j]) == (
                        mid_pairs[j].0,
                        purge_conn(mid_pairs[j].1, id),
                    ),
                forall|j: int|
                    0 <= j < w ==> {
                        &&& (#[trigger] self.conns@[j]).1.pool.wf()
                        &&& self.conns@[j].1.suppressors.wf()
                        &&& self.conns@[j].1.passes.wf()
                    },
            decreases n - w,
        {
            let ghost pre_conns = self.conns@;
            let ghost pre_pairs = self.cpairs();
            let (k, mut c) = self.conns.remove(w);
            let ghost cw = cv(c);
            proof {
                assert(c == mid_conns[w as int].1);
                assert(k == mid_conns[w as int].0);
                assert(cw == mid_pairs[w as int].1);
                assert(k == mid_pairs[w as int].0);
            }
            // drop the departed id from the children
            let ghost ws = c.connections@;
            let mm: usize = c.connections.len();
            let mut kept: Vec<usize> = Vec::new();
            let mut j: usize = 0;
            while j < mm
                invariant
                    mm == c.connections@.len(),
                    ws == c.connections@,
                    0 <= j <= mm,
                    kept@ == crate::pool::drop_watcher(ws.subrange(0, j as int), id),
                decreases mm - j,
            {
                proof {
                    assert(ws.subrange(0, j + 1).drop_last() =~= ws.subrange(0, j as int));
                    assert(ws.subrange(0, j + 1).last() == ws[j as int]);
                }
                let v = c.connections[j];
                if v != id {
                    kept.push(v);
                    proof {
                        assert(kept@ =~= crate::pool::drop_watcher(
                            ws.subrange(0, j + 1),
                            id,
                        ));
                    }
                } else {
                    proof {
                        assert(kept@ =~= crate::pool::drop_watcher(
                            ws.subrange(0, j + 1),
                            id,
                        ));
                    }
                }
                j = j + 1;
            }
            proof {
                assert(ws.subrange(0, mm as int) =~= ws);
            }
            c.connections = kept;
            // revert a focus the departed child held
            let new_focus = match c.focus {
                Focus::Children(f) => if f == id {
                    Focus::This
                } else {
                    Focus::Children(f)
                },
                Focus::This => Focus::This,
            };
            c.focus = new_focus;
            // purge its passes and its pool watches
            c.passes.unsub_all(id);
            c.pool.unwatch_all(id);
            self.conns.insert(w, (k, c));
            proof {
                let nc = self.conns@[w as int].1;
                assert(nc.connections@ == crate::pool::drop_watcher(cw.children, id));
                assert(nc.focus == purge_conn(cw, id).focus);
                assert(nc.passes@ == crate::passes::purge_passes(cw.passes, id));
                assert(nc.pool@ == crate::pool::pool_purged(cw.pool, id));
                assert(cv(nc) == purge_conn(cw, id));
                assert(self.cpairs()[w as int] == (mid_pairs[w as int].0, purge_conn(
                    mid_pairs[w as int].1,
                    id,
                )));
                assert forall|j: int|
                    0 <= j < w + 1 implies (#[trigger] self.cpairs()[j]) == (
                    mid_pairs[j].0,
                    purge_conn(mid_pairs[j].1, id),
                ) by {
                    if j < w as int {
                        assert(self.conns@[j] == pre_conns[j]);
                        assert(self.cpairs()[j] == pre_pairs[j]);
                    }
                }
            }
            w = w + 1;
        }
        proof {
            let new_pairs = self.cpairs();
            let cm1 = self.cmap();
            let lm1 = self.lmap();
            assert(new_pairs.len() == n);
            crate::assoc::lemma_keys_unique_remove(old_lpairs, li as int);
            assert(keys_unique(self.lpairs()));
            // the new table is exactly the purge of the old one
            lemma_remove_amap(old_pairs, new_pairs, ci as int, id);
            let target = Map::new(
                |x: usize| cm0.dom().contains(x) && x != id,
                |x: usize| purge_conn(cm0[x], id),
            );
            assert(cm1 == target);
            // the tree and label invariants hold of the purge
            lemma_purge_tree_wf(cm0, lm0, id);
            assert(tree_wf(cm1, lm1));
            // every component's own tables stay well-formed
            assert forall|j: int| 0 <= j < self.conns@.len() implies {
                &&& (#[trigger] self.conns@[j]).1.pool.wf()
                &&& self.conns@[j].1.suppressors.wf()
                &&& self.conns@[j].1.passes.wf()
            } by {}
        }
        true
    }
}

/// Purging every pair of the table, minus the removed entry, denotes the
/// purge of the map.
#[verifier::rlimit(100)]
pub proof fn lemma_remove_amap(
    old_pairs: Seq<(usize, ConnV)>,
    new_pairs: Seq<(usize, ConnV)>,
    ci: int,
    id: usize,
)
    requires
        keys_unique(old_pairs),
        0 <= ci < old_pairs.len(),
        old_pairs[ci].0 == id,
        new_pairs.len() == old_pairs.len() - 1,
        forall|j: int|
            0 <= j < new_pairs.len() ==> #[trigger] new_pairs[j] == (
                old_pairs.remove(ci)[j].0,
                purge_conn(old_pairs.remove(ci)[j].1, id),
            ),
    ensures
        keys_unique(new_pairs),
        amap(new_pairs) == Map::new(
            |x: usize| amap(old_pairs).dom().contains(x) && x != id,
            |x: usize| purge_conn(amap(old_pairs)[x], id),
        ),
{
    let mid_pairs = old_pairs.remove(ci);
    let cm0 = amap(old_pairs);
    assert(keys_unique(mid_pairs)) by {
        assert forall|a: int, b: int|
            0 <= a < b < mid_pairs.len() implies mid_pairs[a].0 != mid_pairs[b].0 by {
            let a2 = if a < ci {
                a
            } else {
                a + 1
            };
            let b2 = if b < ci {
                b
            } else {
                b + 1
            };
            assert(mid_pairs[a] == old_pairs[a2]);
            assert(mid_pairs[b] == old_pairs[b2]);
        }
    }
    assert(keys_unique(new_pairs)) by {
        assert forall|a: int, b: int|
            0 <= a < b < new_pairs.len() implies new_pairs[a].0 != new_pairs[b].0 by {
            assert(new_pairs[a].0 == mid_pairs[a].0);
            assert(new_pairs[b].0 == mid_pairs[b].0);
        }
    }
    lemma_amap_dom::<usize, ConnV>(new_pairs);
    lemma_amap_dom::<usize, ConnV>(old_pairs);
    let target = Map::new(
        |x: usize| cm0.dom().contains(x) && x != id,
        |x: usize| purge_conn(cm0[x], id),
    );
    assert forall|x: usize| #[trigger] target.dom().contains(x) implies amap(
        new_pairs,
    ).dom().contains(x) && amap(new_pairs)[x] == target[x] by {
            assert(has_key(old_pairs, x));
            let v = choose|v: int| 0 <= v < old_pairs.len() && old_pairs[v].0 == x;
            assert(v != ci);
            let v2 = if v < ci {
                v
            } else {
                v - 1
            };
            assert(mid_pairs[v2] == old_pairs[v]);
            assert(new_pairs[v2] == (x, purge_conn(old_pairs[v].1, id)));
            lemma_amap_get(new_pairs, v2);
            lemma_amap_get(old_pairs, v);
        }
    assert forall|x: usize| #[trigger] amap(new_pairs).dom().contains(x) implies
        target.dom().contains(x) by {
        assert(has_key(new_pairs, x));
        let v = choose|v: int| 0 <= v < new_pairs.len() && new_pairs[v].0 == x;
        assert(new_pairs[v].0 == mid_pairs[v].0);
        let v2 = if v < ci {
            v
        } else {
            v + 1
        };
        assert(mid_pairs[v] == old_pairs[v2]);
        assert(has_key(old_pairs, x));
        assert(cm0.dom().contains(x));
        assert(x != id) by {
            if x == id {
                assert(old_pairs[ci].0 == id);
                assert(v2 != ci);
            }
        }
    }
    assert(amap(new_pairs).dom() =~= target.dom());
    assert(amap(new_pairs) =~= target);
}

/// A path that reaches into `q.push(c)` but not into `q` is exactly
/// `q.push(c)`.
pub proof fn lemma_prefix_push(p: Seq<usize>, q: Seq<usize>, c: usize)
    requires
        is_prefix_of(p, q.push(c)),
        !is_prefix_of(p, q),
    ensures
        p == q.push(c),
{
    if p.len() <= q.len() {
        assert(q.push(c).subrange(0, p.len() as int) =~= q.subrange(0, p.len() as int));
        assert(is_prefix_of(p, q));
    }
    assert(p.len() == q.len() + 1);
    assert(q.push(c).subrange(0, p.len() as int) =~= q.push(c));
}

/// The ids of the table entries whose path lies in the subtree of `d`, in
/// table order (the subtree root among them).
pub open spec fn removed_ids(pairs: Seq<(usize, ConnV)>, d: Seq<usize>) -> Seq<usize>
    decreases pairs.len(),
{
    if pairs.len() == 0 {
        Seq::empty()
    } else {
        let rest = removed_ids(pairs.drop_last(), d);
        if is_prefix_of(d, pairs.last().1.discrim) {
            rest.push(pairs.last().0)
        } else {
            rest
        }
    }
}

/// The removed ids are exactly the table keys whose path the subtree
/// prefix reaches.
pub proof fn lemma_removed_ids(pairs: Seq<(usize, ConnV)>, d: Seq<usize>)
    requires
        keys_unique(pairs),
    ensures
        forall|y: usize| #[trigger]
            removed_ids(pairs, d).contains(y) <==> (amap(pairs).dom().contains(y)
                && is_prefix_of(d, amap(pairs)[y].discrim)),
        removed_ids(pairs, d).no_duplicates(),
    decreases pairs.len(),
{
    lemma_amap_dom::<usize, ConnV>(pairs);
    if pairs.len() > 0 {
        let s0 = pairs.drop_last();
        assert(keys_unique(s0)) by {
            assert forall|i: int, j: int| 0 <= i < j < s0.len() implies s0[i].0 != s0[j].0 by {
                assert(s0[i] == pairs[i] && s0[j] == pairs[j]);
            }
        }
        lemma_removed_ids(s0, d);
        lemma_amap_dom::<usize, ConnV>(s0);
        let p = pairs.last();
        let rest = removed_ids(s0, d);
        let cur = removed_ids(pairs, d);
        assert(!has_key(s0, p.0)) by {
            if has_key(s0, p.0) {
                let w = choose|w: int| 0 <= w < s0.len() && s0[w].0 == p.0;
                assert(pairs[w].0 == p.0);
            }
        }
        assert(amap(pairs) == amap(s0).insert(p.0, p.1));
        assert forall|y: usize| #[trigger] cur.contains(y) implies (amap(
            pairs,
        ).dom().contains(y) && is_prefix_of(d, amap(pairs)[y].discrim)) by {
            let w = choose|w: int| 0 <= w < cur.len() && cur[w] == y;
            if is_prefix_of(d, p.1.discrim) && w == cur.len() - 1 {
                assert(y == p.0);
            } else {
                assert(rest[w] == y);
                assert(rest.contains(y));
                assert(amap(s0).dom().contains(y));
                assert(y != p.0);
                assert(amap(pairs)[y] == amap(s0)[y]);
            }
        }
        assert forall|y: usize|
            amap(pairs).dom().contains(y) && is_prefix_of(
                d,
                amap(pairs)[y].discrim,
            ) implies #[trigger] cur.contains(y) by {
            if y == p.0 {
                assert(amap(pairs)[y] == p.1);
                assert(cur[cur.len() - 1] == y);
            } else {
                assert(amap(s0).dom().contains(y));
                assert(amap(pairs)[y] == amap(s0)[y]);
                assert(rest.contains(y));
                let v = choose|v: int| 0 <= v < rest.len() && rest[v] == y;
                assert(cur[v] == y);
            }
        }
        assert(cur.no_duplicates()) by {
            assert forall|i: int, j: int| 0 <= i < j < cur.len() implies cur[i] != cur[j] by {
                if is_prefix_of(d, p.1.discrim) && j == cur.len() - 1 {
                    assert(cur[i] == rest[i]);
                    assert(rest.contains(rest[i]));
                    assert(amap(s0).dom().contains(rest[i]));
                    assert(has_key(s0, rest[i]));
                } else {
                    assert(cur[i] == rest[i] && cur[j] == rest[j]);
                }
            }
        }
    }
}

/// A surviving component after the subtree of another left: the departed
/// ids disappear from its children, a focus one of them held reverts, and
/// every pass and pool watch of theirs is purged. Everything else is
/// untouched.
pub open spec fn purge_conn_many(c: ConnV, rem: Seq<usize>) -> ConnV {
    ConnV {
        children: crate::pool::drop_dead(c.children, rem),
        focus: match c.focus {
            Focus::Children(f) => if rem.contains(f) {
                Focus::This
            } else {
                Focus::Children(f)
            },
            Focus::This => Focus::This,
        },
        passes: crate::passes::purge_passes_many(c.passes, rem),
        pool: crate::pool::pool_purged_many(c.pool, rem),
        ..c
    }
}

/// The kept pairs of a subtree removal, purged, at the association-list
/// level.
pub open spec fn subtree_kept_pairs(
    pairs: Seq<(usize, ConnV)>,
    d: Seq<usize>,
    rem: Seq<usize>,
) -> Seq<(usize, ConnV)>
    decreases pairs.len(),
{
    if pairs.len() == 0 {
        Seq::empty()
    } else {
        let rest = subtree_kept_pairs(pairs.drop_last(), d, rem);
        if is_prefix_of(d, pairs.last().1.discrim) {
            rest
        } else {
            rest.push((pairs.last().0, purge_conn_many(pairs.last().1, rem)))
        }
    }
}

/// The kept pairs denote the purge of the whole map.
pub proof fn lemma_subtree_amap(pairs: Seq<(usize, ConnV)>, d: Seq<usize>, rem: Seq<usize>)
    requires
        keys_unique(pairs),
    ensures
        keys_unique(subtree_kept_pairs(pairs, d, rem)),
        forall|k: usize| #[trigger]
            has_key(subtree_kept_pairs(pairs, d, rem), k) ==> has_key(pairs, k),
        amap(subtree_kept_pairs(pairs, d, rem)) == Map::new(
            |x: usize| amap(pairs).dom().contains(x) && !is_prefix_of(
                d,
                amap(pairs)[x].discrim,
            ),
            |x: usize| purge_conn_many(amap(pairs)[x], rem),
        ),
    decreases pairs.len(),
{
    if pairs.len() == 0 {
        assert(amap(subtree_kept_pairs(pairs, d, rem)) =~= Map::new(
            |x: usize| amap(pairs).dom().contains(x) && !is_prefix_of(
                d,
                amap(pairs)[x].discrim,
            ),
            |x: usize| purge_conn_many(amap(pairs)[x], rem),
        ));
    } else {
        let s0 = pairs.drop_last();
        assert(keys_unique(s0)) by {
            assert forall|i: int, j: int| 0 <= i < j < s0.len() implies s0[i].0 != s0[j].0 by {
                assert(s0[i] == pairs[i] && s0[j] == pairs[j]);
            }
        }
        lemma_subtree_amap(s0, d, rem);
        lemma_amap_dom::<usize, ConnV>(s0);
        lemma_amap_dom::<usize, ConnV>(pairs);
        let p = pairs.last();
        let rest = subtree_kept_pairs(s0, d, rem);
        let cur = subtree_kept_pairs(pairs, d, rem);
        assert(!has_key(s0, p.0)) by {
            if has_key(s0, p.0) {
                let w = choose|w: int| 0 <= w < s0.len() && s0[w].0 == p.0;
                assert(pairs[w].0 == p.0);
            }
        }
        assert(amap(pairs) == amap(s0).insert(p.0, p.1));
        assert forall|k: usize| #[trigger] has_key(cur, k) implies has_key(pairs, k) by {
            let w = choose|w: int| 0 <= w < cur.len() && cur[w].0 == k;
            if !is_prefix_of(d, p.1.discrim) && w == cur.len() - 1 {
                assert(pairs[pairs.len() - 1].0 == k);
            } else {
                assert(rest[w].0 == k);
                assert(has_key(rest, k));
                assert(has_key(s0, k));
                let v = choose|v: int| 0 <= v < s0.len() && s0[v].0 == k;
                assert(pairs[v].0 == k);
            }
        }
        assert(keys_unique(cur)) by {
            assert forall|i: int, j: int| 0 <= i < j < cur.len() implies cur[i].0 != cur[j].0 by {
                if !is_prefix_of(d, p.1.discrim) && j == cur.len() - 1 {
                    assert(cur[i] == rest[i]);
                    assert(has_key(rest, rest[i].0));
                    assert(has_key(s0, rest[i].0));
                } else {
                    assert(cur[i] == rest[i] && cur[j] == rest[j]);
                }
            }
        }
        lemma_amap_dom::<usize, ConnV>(rest);
        let target = Map::new(
            |x: usize| amap(pairs).dom().contains(x) && !is_prefix_of(
                d,
                amap(pairs)[x].discrim,
            ),
            |x: usize| purge_conn_many(amap(pairs)[x], rem),
        );
        if !is_prefix_of(d, p.1.discrim) {
            lemma_amap_push(rest, p.0, purge_conn_many(p.1, rem));
            assert(amap(cur) =~= target) by {
                assert forall|x: usize| target.dom().contains(x) implies amap(
                    cur,
                ).dom().contains(x) && amap(cur)[x] == target[x] by {
                    if x == p.0 {
                    } else {
                        assert(amap(pairs)[x] == amap(s0)[x]);
                    }
                }
                assert forall|x: usize| amap(cur).dom().contains(x) implies
                    target.dom().contains(x) by {
                    if x == p.0 {
                    } else {
                        assert(amap(rest).dom().contains(x));
                        assert(amap(s0).dom().contains(x));
                        assert(amap(pairs).dom().contains(x));
                        assert(amap(pairs)[x] == amap(s0)[x]);
                    }
                }
            }
        } else {
            assert(amap(cur) =~= target) by {
                assert forall|x: usize| target.dom().contains(x) implies amap(
                    cur,
                ).dom().contains(x) && amap(cur)[x] == target[x] by {
                    assert(x != p.0);
                    assert(amap(pairs)[x] == amap(s0)[x]);
                }
                assert forall|x: usize| amap(cur).dom().contains(x) implies
                    target.dom().contains(x) by {
                    assert(amap(rest).dom().contains(x));
                    assert(amap(s0).dom().contains(x));
                    assert(x != p.0) by {
                        if x == p.0 {
                            assert(has_key(s0, x));
                        }
                    }
                    assert(amap(pairs)[x] == amap(s0)[x]);
                }
            }
        }
    }
}

/// The kept label pairs of a subtree removal.
pub open spec fn labels_kept(
    lpairs: Seq<(Seq<u8>, usize)>,
    rem: Seq<usize>,
) -> Seq<(Seq<u8>, usize)>
    decreases lpairs.len(),
{
    if lpairs.len() == 0 {
        Seq::empty()
    } else {
        let rest = labels_kept(lpairs.drop_last(), rem);
        if rem.contains(lpairs.last().1) {
            rest
        } else {
            rest.push(lpairs.last())
        }
    }
}

/// The kept label pairs denote the label map without the departed ids.
pub proof fn lemma_labels_kept(lpairs: Seq<(Seq<u8>, usize)>, rem: Seq<usize>)
    requires
        keys_unique(lpairs),
    ensures
        keys_unique(labels_kept(lpairs, rem)),
        forall|k: Seq<u8>| #[trigger]
            has_key(labels_kept(lpairs, rem), k) ==> has_key(lpairs, k),
        amap(labels_kept(lpairs, rem)) == Map::new(
            |l: Seq<u8>| amap(lpairs).dom().contains(l) && !rem.contains(amap(lpairs)[l]),
            |l: Seq<u8>| amap(lpairs)[l],
        ),
    decreases lpairs.len(),
{
    if lpairs.len() == 0 {
        assert(amap(labels_kept(lpairs, rem)) =~= Map::new(
            |l: Seq<u8>| amap(lpairs).dom().contains(l) && !rem.contains(amap(lpairs)[l]),
            |l: Seq<u8>| amap(lpairs)[l],
        ));
    } else {
        let s0 = lpairs.drop_last();
        assert(keys_unique(s0)) by {
            assert forall|i: int, j: int| 0 <= i < j < s0.len() implies s0[i].0 != s0[j].0 by {
                assert(s0[i] == lpairs[i] && s0[j] == lpairs[j]);
            }
        }
        lemma_labels_kept(s0, rem);
        lemma_amap_dom::<Seq<u8>, usize>(s0);
        lemma_amap_dom::<Seq<u8>, usize>(lpairs);
        let p = lpairs.last();
        let rest = labels_kept(s0, rem);
        let cur = labels_kept(lpairs, rem);
        assert(!has_key(s0, p.0)) by {
            if has_key(s0, p.0) {
                let w = choose|w: int| 0 <= w < s0.len() && s0[w].0 == p.0;
                assert(lpairs[w].0 == p.0);
            }
        }
        assert(amap(lpairs) == amap(s0).insert(p.0, p.1));
        assert forall|k: Seq<u8>| #[trigger] has_key(cur, k) implies has_key(lpairs, k) by {
            let w = choose|w: int| 0 <= w < cur.len() && cur[w].0 == k;
            if !rem.contains(p.1) && w == cur.len() - 1 {
                assert(lpairs[lpairs.len() - 1].0 == k);
            } else {
                assert(rest[w].0 == k);
                assert(has_key(rest, k));
                assert(has_key(s0, k));
                let v = choose|v: int| 0 <= v < s0.len() && s0[v].0 == k;
                assert(lpairs[v].0 == k);
            }
        }
        assert(keys_unique(cur)) by {
            assert forall|i: int, j: int| 0 <= i < j < cur.len() implies cur[i].0 != cur[j].0 by {
                if !rem.contains(p.1) && j == cur.len() - 1 {
                    assert(cur[i] == rest[i]);
                    assert(has_key(rest, rest[i].0));
                    assert(has_key(s0, rest[i].0));
                } else {
                    assert(cur[i] == rest[i] && cur[j] == rest[j]);
                }
            }
        }
        lemma_amap_dom::<Seq<u8>, usize>(rest);
        let target = Map::new(
            |l: Seq<u8>| amap(lpairs).dom().contains(l) && !rem.contains(amap(lpairs)[l]),
            |l: Seq<u8>| amap(lpairs)[l],
        );
        if !rem.contains(p.1) {
            lemma_amap_push(rest, p.0, p.1);
            assert(amap(cur) =~= target) by {
                assert forall|l: Seq<u8>| target.dom().contains(l) implies amap(
                    cur,
                ).dom().contains(l) && amap(cur)[l] == target[l] by {
                    if l == p.0 {
                    } else {
                        assert(amap(lpairs)[l] == amap(s0)[l]);
                    }
                }
                assert forall|l: Seq<u8>| amap(cur).dom().contains(l) implies
                    target.dom().contains(l) by {
                    if l == p.0 {
                    } else {
                        assert(amap(rest).dom().contains(l));
                        assert(amap(s0).dom().contains(l));
                        assert(amap(lpairs)[l] == amap(s0)[l]);
                    }
                }
            }
        } else {
            assert(amap(cur) =~= target) by {
                assert forall|l: Seq<u8>| target.dom().contains(l) implies amap(
                    cur,
                ).dom().contains(l) && amap(cur)[l] == target[l] by {
                    assert(l != p.0) by {
                        if l == p.0 {
                            assert(amap(lpairs)[l] == p.1);
                        }
                    }
                    assert(amap(lpairs)[l] == amap(s0)[l]);
                }
                assert forall|l: Seq<u8>| amap(cur).dom().contains(l) implies
                    target.dom().contains(l) by {
                    assert(amap(rest).dom().contains(l));
                    assert(amap(s0).dom().contains(l));
                    assert(l != p.0) by {
                        if l == p.0 {
                            assert(has_key(s0, l));
                        }
                    }
                    assert(amap(lpairs)[l] == amap(s0)[l]);
                }
            }
        }
    }
}

/// After a subtree removal, every surviving component's children are
/// surviving components with the right parent and path.
pub proof fn lemma_subtree_children(cm0: Map<usize, ConnV>, id: usize, rem: Seq<usize>)
    requires
        forall|i: usize| #[trigger]
            cm0.dom().contains(i) ==> {
                &&& cm0[i].children.no_duplicates()
                &&& forall|j: int|
                    0 <= j < cm0[i].children.len() ==> {
                        let c = #[trigger] cm0[i].children[j];
                        &&& cm0.dom().contains(c)
                        &&& c != 0
                        &&& cm0[c].parent == i
                        &&& cm0[c].discrim == cm0[i].discrim.push(c)
                    }
            },
        cm0.dom().contains(id),
        forall|y: usize| #[trigger]
            rem.contains(y) <==> (cm0.dom().contains(y) && is_prefix_of(
                cm0[id].discrim,
                cm0[y].discrim,
            )),
    ensures
        ({
            let d = cm0[id].discrim;
            let cm1 = Map::new(
                |x: usize| cm0.dom().contains(x) && !is_prefix_of(d, cm0[x].discrim),
                |x: usize| purge_conn_many(cm0[x], rem),
            );
            forall|i: usize| #[trigger]
                cm1.dom().contains(i) ==> {
                    &&& cm1[i].children.no_duplicates()
                    &&& forall|j: int|
                        0 <= j < cm1[i].children.len() ==> {
                            let c = #[trigger] cm1[i].children[j];
                            &&& cm1.dom().contains(c)
                            &&& c != 0
                            &&& cm1[c].parent == i
                            &&& cm1[c].discrim == cm1[i].discrim.push(c)
                        }
                }
        }),
{
    let d = cm0[id].discrim;
    let cm1 = Map::new(
        |x: usize| cm0.dom().contains(x) && !is_prefix_of(d, cm0[x].discrim),
        |x: usize| purge_conn_many(cm0[x], rem),
    );
    assert forall|i: usize| #[trigger] cm1.dom().contains(i) implies {
        &&& cm1[i].children.no_duplicates()
        &&& forall|j: int|
            0 <= j < cm1[i].children.len() ==> {
                let c = #[trigger] cm1[i].children[j];
                &&& cm1.dom().contains(c)
                &&& c != 0
                &&& cm1[c].parent == i
                &&& cm1[c].discrim == cm1[i].discrim.push(c)
            }
    } by {
        let ws = cm0[i].children;
        crate::pool::lemma_drop_dead_keeps(ws, rem);
        crate::pool::lemma_drop_dead_distinct(ws, rem);
        let f = crate::pool::drop_dead(ws, rem);
        assert(cm1[i].children == f);
        assert forall|j: int| 0 <= j < f.len() implies {
            let c = #[trigger] f[j];
            &&& cm1.dom().contains(c)
            &&& c != 0
            &&& cm1[c].parent == i
            &&& cm1[c].discrim == cm1[i].discrim.push(c)
        } by {
            let c = f[j];
            assert(ws.contains(c) && !rem.contains(c));
            let v = choose|v: int| 0 <= v < ws.len() && ws[v] == c;
            assert(cm0[i].children[v] == c);
            assert(cm0.dom().contains(c) && c != 0 && cm0[c].parent == i && cm0[c].discrim
                == cm0[i].discrim.push(c));
            assert(!is_prefix_of(d, cm0[c].discrim));
        }
    }
}

/// The ids of the strict descendants of the node with path `d`, in table
/// order.
pub open spec fn descendant_ids(
    pairs: Seq<(usize, ConnV)>,
    d: Seq<usize>,
    id: usize,
) -> Seq<usize>
    decreases pairs.len(),
{
    if pairs.len() == 0 {
        Seq::empty()
    } else {
        let rest = descendant_ids(pairs.drop_last(), d, id);
        if pairs.last().0 != id && is_prefix_of(d, pairs.last().1.discrim) {
            rest.push(pairs.last().0)
        } else {
            rest
        }
    }
}

/// The descendant ids are exactly the other table keys whose path the
/// prefix reaches.
pub proof fn lemma_descendant_ids(pairs: Seq<(usize, ConnV)>, d: Seq<usize>, id: usize)
    requires
        keys_unique(pairs),
    ensures
        forall|y: usize| #[trigger]
            descendant_ids(pairs, d, id).contains(y) <==> (amap(pairs).dom().contains(y) && y
                != id && is_prefix_of(d, amap(pairs)[y].discrim)),
        descendant_ids(pairs, d, id).no_duplicates(),
    decreases pairs.len(),
{
    lemma_amap_dom::<usize, ConnV>(pairs);
    if pairs.len() > 0 {
        let s0 = pairs.drop_last();
        assert(keys_unique(s0)) by {
            assert forall|i: int, j: int| 0 <= i < j < s0.len() implies s0[i].0 != s0[j].0 by {
                assert(s0[i] == pairs[i] && s0[j] == pairs[j]);
            }
        }
        lemma_descendant_ids(s0, d, id);
        lemma_amap_dom::<usize, ConnV>(s0);
        let p = pairs.last();
        let rest = descendant_ids(s0, d, id);
        let cur = descendant_ids(pairs, d, id);
        assert(!has_key(s0, p.0)) by {
            if has_key(s0, p.0) {
                let w = choose|w: int| 0 <= w < s0.len() && s0[w].0 == p.0;
                assert(pairs[w].0 == p.0);
            }
        }
        assert(amap(pairs) == amap(s0).insert(p.0, p.1));
        assert forall|y: usize| #[trigger] cur.contains(y) implies (amap(
            pairs,
        ).dom().contains(y) && y != id && is_prefix_of(d, amap(pairs)[y].discrim)) by {
            let w = choose|w: int| 0 <= w < cur.len() && cur[w] == y;
            if p.0 != id && is_prefix_of(d, p.1.discrim) && w == cur.len() - 1 {
                assert(y == p.0);
            } else {
                assert(rest[w] == y);
                assert(rest.contains(y));
                assert(amap(s0).dom().contains(y));
                assert(y != p.0);
                assert(amap(pairs)[y] == amap(s0)[y]);
            }
        }
        assert forall|y: usize|
            amap(pairs).dom().contains(y) && y != id && is_prefix_of(
                d,
                amap(pairs)[y].discrim,
            ) implies #[trigger] cur.contains(y) by {
            if y == p.0 {
                assert(amap(pairs)[y] == p.1);
                assert(cur[cur.len() - 1] == y);
            } else {
                assert(amap(s0).dom().contains(y));
                assert(amap(pairs)[y] == amap(s0)[y]);
                assert(rest.contains(y));
                let v = choose|v: int| 0 <= v < rest.len() && rest[v] == y;
                assert(cur[v] == y);
            }
        }
        assert(cur.no_duplicates()) by {
            assert forall|i: int, j: int| 0 <= i < j < cur.len() implies cur[i] != cur[j] by {
                if p.0 != id && is_prefix_of(d, p.1.discrim) && j == cur.len() - 1 {
                    assert(cur[i] == rest[i]);
                    assert(rest.contains(rest[i]));
                    assert(amap(s0).dom().contains(rest[i]));
                    assert(has_key(s0, rest[i]));
                } else {
                    assert(cur[i] == rest[i] && cur[j] == rest[j]);
                }
            }
        }
    }
}

/// Insert one id into a depth-sorted list at `pos`: everything before keeps
/// a depth at least the new one's, everything from `pos` on lies strictly
/// below it.
#[verifier::rlimit(100)]
#[verifier::spinoff_prover]
fn insert_sorted_by_depth(reg: &Registry, out: &mut Vec<usize>, pos: usize, y: usize)
    requires
        reg.cmap().dom().contains(y),
        pos <= old(out)@.len(),
        !old(out)@.contains(y),
        forall|j2: int|
            0 <= j2 < old(out)@.len() ==> reg.cmap().dom().contains(#[trigger] old(out)@[j2]),
        forall|i2: int, j2: int|
            0 <= i2 < j2 < old(out)@.len() ==> reg.cmap()[
                #[trigger] old(out)@[i2]
            ].discrim.len() >= reg.cmap()[#[trigger] old(out)@[j2]].discrim.len(),
        forall|j2: int|
            0 <= j2 < pos ==> reg.cmap()[#[trigger] old(out)@[j2]].discrim.len() >= reg.cmap()[
                y
            ].discrim.len(),
        pos < old(out)@.len() ==> reg.cmap()[old(out)@[pos as int]].discrim.len() < reg.cmap()[
            y
        ].discrim.len(),
        old(out)@.no_duplicates(),
    ensures
        final(out)@ == old(out)@.insert(pos as int, y),
        final(out)@.no_duplicates(),
        forall|j2: int|
            0 <= j2 < final(out)@.len() ==> reg.cmap().dom().contains(
                #[trigger] final(out)@[j2],
            ),
        forall|i2: int, j2: int|
            0 <= i2 < j2 < final(out)@.len() ==> reg.cmap()[
                #[trigger] final(out)@[i2]
            ].discrim.len() >= reg.cmap()[#[trigger] final(out)@[j2]].discrim.len(),
        forall|y2: usize| #[trigger]
            final(out)@.contains(y2) <==> (old(out)@.contains(y2) || y2 == y),
{
    let ghost old_out = out@;
    let ghost m = reg.cmap()[y].discrim.len();
    out.insert(pos, y);
    proof {
        assert(out@ =~= old_out.insert(pos as int, y));
        assert(out@.no_duplicates()) by {
            assert forall|a: int, b: int| 0 <= a < b < out@.len() implies out@[a] != out@[b] by {
                if a == pos as int {
                    assert(out@[b] == old_out[b - 1]);
                    assert(old_out.contains(old_out[b - 1]));
                } else if b == pos as int {
                    assert(out@[a] == old_out[a]);
                    assert(old_out.contains(old_out[a]));
                } else {
                    let a2 = if a < pos as int {
                        a
                    } else {
                        a - 1
                    };
                    let b2 = if b < pos as int {
                        b
                    } else {
                        b - 1
                    };
                    assert(out@[a] == old_out[a2]);
                    assert(out@[b] == old_out[b2]);
                }
            }
        }
        assert forall|i2: int, j2: int| 0 <= i2 < j2 < out@.len() implies reg.cmap()[
            #[trigger] out@[i2]
        ].discrim.len() >= reg.cmap()[#[trigger] out@[j2]].discrim.len() by {
            let pi = pos as int;
            if i2 < pi && j2 < pi {
                assert(out@[i2] == old_out[i2] && out@[j2] == old_out[j2]);
            } else if i2 < pi && j2 == pi {
                assert(out@[i2] == old_out[i2]);
            } else if i2 < pi {
                assert(out@[i2] == old_out[i2] && out@[j2] == old_out[j2 - 1]);
            } else if i2 == pi {
                assert(out@[j2] == old_out[j2 - 1]);
                assert(pi <= j2 - 1 < old_out.len());
                assert(reg.cmap()[old_out[pi]].discrim.len() < m);
                if pi < j2 - 1 {
                    assert(reg.cmap()[old_out[j2 - 1]].discrim.len() <= reg.cmap()[
                        old_out[pi]
                    ].discrim.len());
                }
            } else {
                assert(out@[i2] == old_out[i2 - 1] && out@[j2] == old_out[j2 - 1]);
            }
        }
        assert forall|y2: usize| #[trigger] out@.contains(y2) implies (old_out.contains(y2)
            || y2 == y) by {
            let w = choose|w: int| 0 <= w < out@.len() && out@[w] == y2;
            if w != pos as int {
                let w2 = if w < pos as int {
                    w
                } else {
                    w - 1
                };
                assert(old_out[w2] == y2);
            }
        }
        assert forall|y2: usize| old_out.contains(y2) || y2 == y implies #[trigger]
            out@.contains(y2) by {
            if y2 == y {
                assert(out@[pos as int] == y2);
            } else {
                let v = choose|v: int| 0 <= v < old_out.len() && old_out[v] == y2;
                let v2 = if v < pos as int {
                    v
                } else {
                    v + 1
                };
                assert(out@[v2] == y2);
            }
        }
    }
}

impl Registry {
    /// The depth of component `y`: the length of its path.
    fn depth_of(&self, y: usize) -> (r: usize)
        requires
            self.wf(),
            self.cmap().dom().contains(y),
        ensures
            r == self.cmap()[y].discrim.len(),
    {
        match self.get(y) {
            Some(c) => c.discrim.len(),
            None => {
                proof {
                    assert(false);
                }
                0
            },
        }
    }

    /// The strict descendants of `id`: every component whose path extends
    /// its, the deepest first, so a child always comes before its parent
    /// and the sequence can be consumed as a post-order of the subtree.
    #[verifier::rlimit(100)]
    #[verifier::spinoff_prover]
    pub fn descendants(&self, id: usize) -> (r: Vec<usize>)
        requires
            self.wf(),
            self.cmap().dom().contains(id),
        ensures
            r@.no_duplicates(),
            forall|y: usize| #[trigger]
                r@.contains(y) <==> (self.cmap().dom().contains(y) && y != id && is_prefix_of(
                    self.cmap()[id].discrim,
                    self.cmap()[y].discrim,
                )),
            forall|i: int, j: int|
                0 <= i < j < r@.len() ==> self.cmap()[#[trigger] r@[i]].discrim.len()
                    >= self.cmap()[#[trigger] r@[j]].discrim.len(),
    {
        proof {
            lemma_amap_dom::<usize, ConnV>(self.cpairs());
        }
        let di = match self.find_conn(id) {
            Some(di) => di,
            None => {
                proof {
                    assert(false);
                }
                return Vec::new();
            },
        };
        proof {
            lemma_amap_get(self.cpairs(), di as int);
        }
        let droot = self.conns[di].1.discrim.clone();
        let ghost d = self.cmap()[id].discrim;
        let n: usize = self.conns.len();
        let mut found: Vec<usize> = Vec::new();
        let mut i: usize = 0;
        while i < n
            invariant
                n == self.conns@.len(),
                0 <= i <= n,
                droot@ == d,
                found@ == descendant_ids(self.cpairs().subrange(0, i as int), d, id),
            decreases n - i,
        {
            proof {
                assert(self.cpairs().subrange(0, i + 1).drop_last() =~= self.cpairs().subrange(
                    0,
                    i as int,
                ));
                assert(self.cpairs().subrange(0, i + 1).last() == self.cpairs()[i as int]);
            }
            if self.conns[i].0 != id && self.conns[i].1.discrim.starts_with(&droot) {
                found.push(self.conns[i].0);
                proof {
                    assert(found@ =~= descendant_ids(
                        self.cpairs().subrange(0, i + 1),
                        d,
                        id,
                    ));
                }
            } else {
                proof {
                    assert(found@ =~= descendant_ids(
                        self.cpairs().subrange(0, i + 1),
                        d,
                        id,
                    ));
                }
            }
            i = i + 1;
        }
        proof {
            assert(self.cpairs().subrange(0, n as int) =~= self.cpairs());
            lemma_descendant_ids(self.cpairs(), d, id);
            assert forall|j: int| 0 <= j < found@.len() implies self.cmap().dom().contains(
                #[trigger] found@[j],
            ) by {
                assert(found@.contains(found@[j]));
            }
        }
        let out = self.sort_by_depth(found);
        out
    }

    /// Order ids by their depth, the deepest first; equal depths keep their
    /// order of arrival.
    #[verifier::rlimit(100)]
    #[verifier::spinoff_prover]
    fn sort_by_depth(&self, found: Vec<usize>) -> (out: Vec<usize>)
        requires
            self.wf(),
            found@.no_duplicates(),
            forall|j: int|
                0 <= j < found@.len() ==> self.cmap().dom().contains(#[trigger] found@[j]),
        ensures
            out@.no_duplicates(),
            forall|y: usize| #[trigger] out@.contains(y) <==> found@.contains(y),
            forall|i2: int, j2: int|
                0 <= i2 < j2 < out@.len() ==> self.cmap()[#[trigger] out@[i2]].discrim.len()
                    >= self.cmap()[#[trigger] out@[j2]].discrim.len(),
    {
        // the deepest first: insertion keeps equal depths in table order
        let fn_len: usize = found.len();
        let mut out: Vec<usize> = Vec::new();
        let mut k: usize = 0;
        while k < fn_len
            invariant
                self.wf(),
                fn_len == found@.len(),
                0 <= k <= fn_len,
                found@.no_duplicates(),
                forall|j: int|
                    0 <= j < found@.len() ==> self.cmap().dom().contains(#[trigger] found@[j]),
                forall|j2: int|
                    0 <= j2 < out@.len() ==> self.cmap().dom().contains(#[trigger] out@[j2]),
                forall|y: usize| #[trigger]
                    out@.contains(y) <==> found@.subrange(0, k as int).contains(y),
                out@.no_duplicates(),
                forall|i2: int, j2: int|
                    0 <= i2 < j2 < out@.len() ==> self.cmap()[#[trigger] out@[i2]].discrim.len()
                        >= self.cmap()[#[trigger] out@[j2]].discrim.len(),
            decreases fn_len - k,
        {
            let y = found[k];
            let m = self.depth_of(y);
            let on: usize = out.len();
            let mut pos: usize = 0;
            while pos < on && self.depth_of(out[pos]) >= m
                invariant
                    self.wf(),
                    on == out@.len(),
                    0 <= pos <= on,
                    self.cmap().dom().contains(y),
                    m == self.cmap()[y].discrim.len(),
                    forall|j2: int|
                        0 <= j2 < out@.len() ==> self.cmap().dom().contains(
                            #[trigger] out@[j2],
                        ),
                    forall|j2: int|
                        0 <= j2 < pos ==> self.cmap()[#[trigger] out@[j2]].discrim.len() >= m,
                decreases on - pos,
            {
                pos = pos + 1;
            }
            let ghost old_out = out@;
            proof {
                assert(!old_out.contains(y)) by {
                    if old_out.contains(y) {
                        assert(found@.subrange(0, k as int).contains(y));
                        let w = choose|w: int|
                            0 <= w < k && found@.subrange(0, k as int)[w] == y;
                        assert(found@[w] == y && found@[k as int] == y);
                    }
                }
            }
            insert_sorted_by_depth(self, &mut out, pos, y);
            proof {
                assert(found@.subrange(0, k + 1).drop_last() =~= found@.subrange(0, k as int));
                assert(found@.subrange(0, k + 1).last() == found@[k as int]);
                assert forall|y2: usize| #[trigger] out@.contains(y2) implies found@.subrange(
                    0,
                    k + 1,
                ).contains(y2) by {
                    if y2 == y {
                        assert(found@.subrange(0, k + 1)[k as int] == y2);
                    } else {
                        assert(old_out.contains(y2));
                        assert(found@.subrange(0, k as int).contains(y2));
                        let v = choose|v: int|
                            0 <= v < k && found@.subrange(0, k as int)[v] == y2;
                        assert(found@.subrange(0, k + 1)[v] == y2);
                    }
                }
                assert forall|y2: usize| found@.subrange(0, k + 1).contains(y2) implies
                    #[trigger] out@.contains(y2) by {
                    let s1 = found@.subrange(0, k + 1);
                    let w = choose|w: int| 0 <= w < s1.len() && s1[w] == y2;
                    if w == k as int {
                    } else {
                        assert(found@.subrange(0, k as int)[w] == y2);
                        assert(old_out.contains(y2));
                    }
                }
            }
            k = k + 1;
        }
        proof {
            assert(found@.subrange(0, fn_len as int) =~= found@);
        }
        out
    }
}

/// The table with one watcher dropped from every pool, at the
/// association-list level.
pub open spec fn pruned_pairs(pairs: Seq<(usize, ConnV)>, w: usize) -> Seq<(usize, ConnV)>
    decreases pairs.len(),
{
    if pairs.len() == 0 {
        Seq::empty()
    } else {
        pruned_pairs(pairs.drop_last(), w).push(
            (
                pairs.last().0,
                ConnV { pool: crate::pool::pool_purged(pairs.last().1.pool, w), ..pairs.last().1 },
            ),
        )
    }
}

/// The pruned pairs keep their keys, in place.
pub proof fn lemma_pruned_keys(pairs: Seq<(usize, ConnV)>, w: usize)
    ensures
        pruned_pairs(pairs, w).len() == pairs.len(),
        forall|i: int|
            0 <= i < pairs.len() ==> (#[trigger] pruned_pairs(pairs, w)[i]).0 == pairs[i].0,
    decreases pairs.len(),
{
    if pairs.len() > 0 {
        lemma_pruned_keys(pairs.drop_last(), w);
        let rest = pruned_pairs(pairs.drop_last(), w);
        let cur = pruned_pairs(pairs, w);
        assert forall|i: int| 0 <= i < pairs.len() implies (#[trigger] cur[i]).0
            == pairs[i].0 by {
            if i < pairs.len() - 1 {
                assert(cur[i] == rest[i]);
                assert(pairs.drop_last()[i] == pairs[i]);
            }
        }
    }
}

/// The pruned pairs denote the pool purge over the whole map.
pub proof fn lemma_pruned_amap(pairs: Seq<(usize, ConnV)>, w: usize)
    requires
        keys_unique(pairs),
    ensures
        keys_unique(pruned_pairs(pairs, w)),
        amap(pruned_pairs(pairs, w)) == Map::new(
            |x: usize| amap(pairs).dom().contains(x),
            |x: usize| ConnV { pool: crate::pool::pool_purged(amap(pairs)[x].pool, w), ..amap(
                pairs,
            )[x] },
        ),
    decreases pairs.len(),
{
    if pairs.len() == 0 {
        assert(amap(pruned_pairs(pairs, w)) =~= Map::new(
            |x: usize| amap(pairs).dom().contains(x),
            |x: usize| ConnV { pool: crate::pool::pool_purged(amap(pairs)[x].pool, w), ..amap(
                pairs,
            )[x] },
        ));
    } else {
        let s0 = pairs.drop_last();
        assert(keys_unique(s0)) by {
            assert forall|i: int, j: int| 0 <= i < j < s0.len() implies s0[i].0 != s0[j].0 by {
                assert(s0[i] == pairs[i] && s0[j] == pairs[j]);
            }
        }
        lemma_pruned_amap(s0, w);
        lemma_amap_dom::<usize, ConnV>(s0);
        lemma_amap_dom::<usize, ConnV>(pairs);
        let p = pairs.last();
        let rest = pruned_pairs(s0, w);
        let cur = pruned_pairs(pairs, w);
        assert(!has_key(s0, p.0)) by {
            if has_key(s0, p.0) {
                let v = choose|v: int| 0 <= v < s0.len() && s0[v].0 == p.0;
                assert(pairs[v].0 == p.0);
            }
        }
        assert(amap(pairs) == amap(s0).insert(p.0, p.1));
        lemma_amap_dom::<usize, ConnV>(rest);
        assert(keys_unique(cur)) by {
            assert forall|i: int, j: int| 0 <= i < j < cur.len() implies cur[i].0 != cur[j].0 by {
                if j == cur.len() - 1 {
                    lemma_pruned_keys(s0, w);
                    assert(cur[i].0 == rest[i].0);
                    assert(rest[i].0 == s0[i].0);
                    assert(has_key(s0, s0[i].0));
                } else {
                    assert(cur[i] == rest[i] && cur[j] == rest[j]);
                }
            }
        }
        lemma_amap_push(
            rest,
            p.0,
            ConnV { pool: crate::pool::pool_purged(p.1.pool, w), ..p.1 },
        );
        assert(amap(cur) =~= Map::new(
            |x: usize| amap(pairs).dom().contains(x),
            |x: usize| ConnV { pool: crate::pool::pool_purged(amap(pairs)[x].pool, w), ..amap(
                pairs,
            )[x] },
        )) by {
            assert forall|x: usize| amap(pairs).dom().contains(x) implies amap(
                cur,
            ).dom().contains(x) && amap(cur)[x] == ConnV {
                pool: crate::pool::pool_purged(amap(pairs)[x].pool, w),
                ..amap(pairs)[x]
            } by {
                if x == p.0 {
                } else {
                    assert(amap(s0).dom().contains(x));
                    assert(amap(pairs)[x] == amap(s0)[x]);
                }
            }
            assert forall|x: usize| amap(cur).dom().contains(x) implies amap(
                pairs,
            ).dom().contains(x) by {
                if x != p.0 {
                    assert(amap(rest).dom().contains(x));
                    assert(amap(s0).dom().contains(x));
                }
            }
        }
    }
}

impl Registry {
    /// Drop `watcher` from every pool in the table: its client handle died,
    /// so no broadcast can reach it again. Everything else stays.
    #[verifier::rlimit(100)]
    #[verifier::spinoff_prover]
    pub fn prune_watcher(&mut self, watcher: usize)
        requires
            old(self).wf(),
        ensures
            final(self).wf(),
            final(self).lmap() == old(self).lmap(),
            final(self).cmap() == Map::new(
                |x: usize| old(self).cmap().dom().contains(x),
                |x: usize| ConnV {
                    pool: crate::pool::pool_purged(old(self).cmap()[x].pool, watcher),
                    ..old(self).cmap()[x]
                },
            ),
    {
        let ghost old_pairs = self.cpairs();
        let ghost cm0 = self.cmap();
        let mut out: Vec<(usize, Connection)> = Vec::new();
        let n0: usize = self.conns.len();
        let ghost total = old_pairs.len();
        proof {
            assert(total == n0);
        }
        let mut done: usize = 0;
        while self.conns.len() > 0
            invariant
                self.labels == old(self).labels,
                done + self.conns@.len() == total,
                total == old_pairs.len(),
                total <= usize::MAX,
                forall|j: int|
                    0 <= j < self.conns@.len() ==> #[trigger] self.cpairs()[j] == old_pairs[
                        done + j
                    ],
                forall|j: int|
                    0 <= j < self.conns@.len() ==> {
                        &&& (#[trigger] self.conns@[j]).1.pool.wf()
                        &&& self.conns@[j].1.suppressors.wf()
                        &&& self.conns@[j].1.passes.wf()
                    },
                out@.map_values(|p: (usize, Connection)| (p.0, cv(p.1))) == pruned_pairs(
                    old_pairs.subrange(0, done as int),
                    watcher,
                ),
                forall|j: int|
                    0 <= j < out@.len() ==> {
                        &&& (#[trigger] out@[j]).1.pool.wf()
                        &&& out@[j].1.suppressors.wf()
                        &&& out@[j].1.passes.wf()
                    },
            decreases self.conns@.len(),
        {
            let ghost pre_pairs = self.cpairs();
            let (k, mut c) = self.conns.remove(0);
            let ghost cw = cv(c);
            proof {
                assert(pre_pairs[0] == old_pairs[done as int]);
                assert(cw == old_pairs[done as int].1);
                assert(k == old_pairs[done as int].0);
                assert(old_pairs.subrange(0, done + 1).drop_last() =~= old_pairs.subrange(
                    0,
                    done as int,
                ));
                assert(old_pairs.subrange(0, done + 1).last() == old_pairs[done as int]);
                assert forall|j: int|
                    0 <= j < self.conns@.len() implies #[trigger] self.cpairs()[j] == old_pairs[
                    done + 1 + j
                ] by {
                    assert(self.cpairs()[j] == pre_pairs[j + 1]);
                }
            }
            c.pool.unwatch_all(watcher);
            out.push((k, c));
            proof {
                assert(cv(out@[out@.len() - 1].1) == ConnV {
                    pool: crate::pool::pool_purged(cw.pool, watcher),
                    ..cw
                });
                assert(out@.map_values(|p: (usize, Connection)| (p.0, cv(p.1)))
                    =~= pruned_pairs(old_pairs.subrange(0, done + 1), watcher));
            }
            done = done + 1;
        }
        self.conns = out;
        proof {
            assert(old_pairs.subrange(0, total as int) =~= old_pairs);
            lemma_pruned_amap(old_pairs, watcher);
            let cm1 = self.cmap();
            assert(cm1.dom() =~= cm0.dom());
            assert forall|x: usize| #[trigger] cm0.dom().contains(x) implies {
                &&& cm1[x].discrim == cm0[x].discrim
                &&& cm1[x].parent == cm0[x].parent
                &&& cm1[x].children == cm0[x].children
                &&& cm1[x].kind == cm0[x].kind
                &&& cm1[x].label == cm0[x].label
            } by {}
            lemma_tree_wf_same_shape(cm0, cm1, self.lmap());
        }
    }
}

/// Removing a whole subtree and purging every reference into it keeps the
/// tree and label invariants.
#[verifier::rlimit(100)]
#[verifier::spinoff_prover]
pub proof fn lemma_subtree_tree_wf(
    cm0: Map<usize, ConnV>,
    lm0: Map<Seq<u8>, usize>,
    id: usize,
    rem: Seq<usize>,
)
    requires
        tree_wf(cm0, lm0),
        id != 0,
        cm0.dom().contains(id),
        forall|y: usize| #[trigger]
            rem.contains(y) <==> (cm0.dom().contains(y) && is_prefix_of(
                cm0[id].discrim,
                cm0[y].discrim,
            )),
    ensures
        tree_wf(
            Map::new(
                |x: usize| cm0.dom().contains(x) && !is_prefix_of(
                    cm0[id].discrim,
                    cm0[x].discrim,
                ),
                |x: usize| purge_conn_many(cm0[x], rem),
            ),
            Map::new(
                |l: Seq<u8>| lm0.dom().contains(l) && !rem.contains(lm0[l]),
                |l: Seq<u8>| lm0[l],
            ),
        ),
{
    let d = cm0[id].discrim;
    let cm1 = Map::new(
        |x: usize| cm0.dom().contains(x) && !is_prefix_of(d, cm0[x].discrim),
        |x: usize| purge_conn_many(cm0[x], rem),
    );
    let lm1 = Map::new(|l: Seq<u8>| lm0.dom().contains(l) && !rem.contains(lm0[l]), |l: Seq<u8>| lm0[l]);
    assert(d.len() > 0);
    assert(cm1.dom().contains(0)) by {
        assert(!is_prefix_of(d, cm0[0].discrim));
    }
    assert(cm1[0].parent == 0 && cm1[0].discrim == Seq::<usize>::empty());
    lemma_subtree_children(cm0, id, rem);
    assert forall|i: usize| #[trigger] cm1.dom().contains(i) && i != 0 implies {
        &&& cm1[i].discrim.len() > 0
        &&& cm1[i].discrim.last() == i
        &&& cm1.dom().contains(cm1[i].parent)
        &&& cm1[i].parent != i
        &&& cm1[cm1[i].parent].discrim == cm1[i].discrim.drop_last()
        &&& cm1[cm1[i].parent].children.contains(i)
        &&& cm1[cm1[i].parent].kind is Space
    } by {
        let px = cm0[i].parent;
        assert(cm0.dom().contains(px));
        assert(cm0[px].discrim == cm0[i].discrim.drop_last());
        assert(!is_prefix_of(d, cm0[px].discrim)) by {
            if is_prefix_of(d, cm0[px].discrim) {
                assert(cm0[i].discrim.subrange(0, d.len() as int) =~= cm0[
                    px
                ].discrim.subrange(0, d.len() as int));
                assert(is_prefix_of(d, cm0[i].discrim));
            }
        }
        assert(cm1.dom().contains(px));
        crate::pool::lemma_drop_dead_keeps(cm0[px].children, rem);
        assert(!rem.contains(i)) by {
            if rem.contains(i) {
                assert(is_prefix_of(d, cm0[i].discrim));
            }
        }
        assert(cm1[px].children.contains(i));
    }
    assert forall|l: Seq<u8>| #[trigger] lm1.dom().contains(l) implies cm1.dom().contains(
        lm1[l],
    ) && cm1[lm1[l]].label == l by {
        let y = lm0[l];
        assert(cm0.dom().contains(y) && cm0[y].label == l);
        assert(!is_prefix_of(d, cm0[y].discrim)) by {
            if is_prefix_of(d, cm0[y].discrim) {
                assert(rem.contains(y));
            }
        }
    }
    assert forall|x: usize| #[trigger] cm1.dom().contains(x) implies lm1.dom().contains(
        cm1[x].label,
    ) && lm1[cm1[x].label] == x by {
        assert(cm0.dom().contains(x));
        assert(cm1[x].label == cm0[x].label);
        assert(lm0.dom().contains(cm0[x].label) && lm0[cm0[x].label] == x);
        assert(!rem.contains(x)) by {
            if rem.contains(x) {
                assert(is_prefix_of(d, cm0[x].discrim));
            }
        }
    }
}

impl Registry {
    /// The kept components of a subtree removal, each purged of the
    /// departed: one pass over the table.
    #[verifier::rlimit(100)]
    #[verifier::spinoff_prover]
    fn rebuild_kept(&mut self, droot: &Discriminator, removed: &Vec<usize>)
        requires
            forall|j: int|
                0 <= j < old(self).conns@.len() ==> {
                    &&& (#[trigger] old(self).conns@[j]).1.pool.wf()
                    &&& old(self).conns@[j].1.suppressors.wf()
                    &&& old(self).conns@[j].1.passes.wf()
                },
        ensures
            final(self).labels == old(self).labels,
            final(self).cpairs() == subtree_kept_pairs(old(self).cpairs(), droot@, removed@),
            forall|j: int|
                0 <= j < final(self).conns@.len() ==> {
                    &&& (#[trigger] final(self).conns@[j]).1.pool.wf()
                    &&& final(self).conns@[j].1.suppressors.wf()
                    &&& final(self).conns@[j].1.passes.wf()
                },
    {
        let ghost d = droot@;
        let ghost remv = removed@;
        let ghost old_pairs = self.cpairs();
        let mut out: Vec<(usize, Connection)> = Vec::new();
        let n0: usize = self.conns.len();
        let ghost total = old_pairs.len();
        proof {
            assert(total == n0);
        }
        let mut done: usize = 0;
        while self.conns.len() > 0
            invariant
                self.labels == old(self).labels,
                remv == removed@,
                done + self.conns@.len() == total,
                total == old_pairs.len(),
                total <= usize::MAX,
                forall|j: int|
                    0 <= j < self.conns@.len() ==> #[trigger] self.cpairs()[j] == old_pairs[
                        done + j
                    ],
                forall|j: int|
                    0 <= j < self.conns@.len() ==> {
                        &&& (#[trigger] self.conns@[j]).1.pool.wf()
                        &&& self.conns@[j].1.suppressors.wf()
                        &&& self.conns@[j].1.passes.wf()
                    },
                out@.map_values(|p: (usize, Connection)| (p.0, cv(p.1))) == subtree_kept_pairs(
                    old_pairs.subrange(0, done as int),
                    d,
                    remv,
                ),
                forall|j: int|
                    0 <= j < out@.len() ==> {
                        &&& (#[trigger] out@[j]).1.pool.wf()
                        &&& out@[j].1.suppressors.wf()
                        &&& out@[j].1.passes.wf()
                    },
                droot@ == d,
            decreases self.conns@.len(),
        {
            let ghost pre_pairs = self.cpairs();
            let (k, mut c) = self.conns.remove(0);
            let ghost cw = cv(c);
            proof {
                assert(pre_pairs[0] == old_pairs[done as int]);
                assert(cw == old_pairs[done as int].1);
                assert(k == old_pairs[done as int].0);
                assert(old_pairs.subrange(0, done + 1).drop_last() =~= old_pairs.subrange(
                    0,
                    done as int,
                ));
                assert(old_pairs.subrange(0, done + 1).last() == old_pairs[done as int]);
                assert forall|j: int|
                    0 <= j < self.conns@.len() implies #[trigger] self.cpairs()[j] == old_pairs[
                    done + 1 + j
                ] by {
                    assert(self.cpairs()[j] == pre_pairs[j + 1]);
                }
            }
            if c.discrim.starts_with(droot) {
                proof {
                    assert(out@.map_values(|p: (usize, Connection)| (p.0, cv(p.1)))
                        =~= subtree_kept_pairs(old_pairs.subrange(0, done + 1), d, remv));
                }
            } else {
                // the departed leave the children
                let ghost ws = c.connections@;
                let mm: usize = c.connections.len();
                let mut kept: Vec<usize> = Vec::new();
                let mut j: usize = 0;
                while j < mm
                    invariant
                        mm == c.connections@.len(),
                        ws == c.connections@,
                        remv == removed@,
                        0 <= j <= mm,
                        kept@ == crate::pool::drop_dead(ws.subrange(0, j as int), remv),
                    decreases mm - j,
                {
                    proof {
                        assert(ws.subrange(0, j + 1).drop_last() =~= ws.subrange(0, j as int));
                        assert(ws.subrange(0, j + 1).last() == ws[j as int]);
                    }
                    let v = c.connections[j];
                    if !crate::broker::contains_id(removed, v) {
                        kept.push(v);
                        proof {
                            assert(kept@ =~= crate::pool::drop_dead(
                                ws.subrange(0, j + 1),
                                remv,
                            ));
                        }
                    } else {
                        proof {
                            assert(kept@ =~= crate::pool::drop_dead(
                                ws.subrange(0, j + 1),
                                remv,
                            ));
                        }
                    }
                    j = j + 1;
                }
                proof {
                    assert(ws.subrange(0, mm as int) =~= ws);
                }
                c.connections = kept;
                // a focus a departed child held reverts
                let new_focus = match c.focus {
                    Focus::Children(f) => if crate::broker::contains_id(removed, f) {
                        Focus::This
                    } else {
                        Focus::Children(f)
                    },
                    Focus::This => Focus::This,
                };
                c.focus = new_focus;
                // their passes and pool watches are purged
                c.passes.unsub_many(removed);
                c.pool.unwatch_many(removed);
                out.push((k, c));
                proof {
                    assert(cv(out@[out@.len() - 1].1) == purge_conn_many(cw, remv));
                    assert(out@.map_values(|p: (usize, Connection)| (p.0, cv(p.1)))
                        =~= subtree_kept_pairs(old_pairs.subrange(0, done + 1), d, remv));
                }
            }
            done = done + 1;
        }
        self.conns = out;
        proof {
            assert(old_pairs.subrange(0, total as int) =~= old_pairs);
        }
    }

    /// Remove component `id` and its entire subtree: every component whose
    /// path the subtree prefix reaches leaves the table with its label, the
    /// departed ids disappear from the survivors' children, a focus one of
    /// them held reverts, and every pass and pool watch of theirs is purged.
    /// The root is never removed. Returns whether anything was removed.
    #[verifier::rlimit(100)]
    #[verifier::spinoff_prover]
    pub fn remove_subtree(&mut self, id: usize) -> (r: bool)
        requires
            old(self).wf(),
        ensures
            final(self).wf(),
            r == (id != 0 && old(self).cmap().dom().contains(id)),
            !r ==> final(self).cmap() == old(self).cmap() && final(self).lmap() == old(
                self,
            ).lmap(),
            r ==> ({
                let rem = removed_ids(old(self).cpairs(), old(self).cmap()[id].discrim);
                &&& final(self).cmap() == Map::new(
                    |x: usize| old(self).cmap().dom().contains(x) && !is_prefix_of(
                        old(self).cmap()[id].discrim,
                        old(self).cmap()[x].discrim,
                    ),
                    |x: usize| purge_conn_many(old(self).cmap()[x], rem),
                )
                &&& final(self).lmap() == Map::new(
                    |l: Seq<u8>| old(self).lmap().dom().contains(l) && !rem.contains(
                        old(self).lmap()[l],
                    ),
                    |l: Seq<u8>| old(self).lmap()[l],
                )
            }),
    {
        proof {
            lemma_amap_dom::<usize, ConnV>(self.cpairs());
            lemma_amap_dom::<Seq<u8>, usize>(self.lpairs());
        }
        if id == 0 {
            return false;
        }
        let di = match self.find_conn(id) {
            Some(di) => di,
            None => {
                return false;
            },
        };
        proof {
            lemma_amap_get(self.cpairs(), di as int);
        }
        let droot = self.conns[di].1.discrim.clone();
        let ghost d = self.cmap()[id].discrim;
        let ghost cm0 = self.cmap();
        let ghost lm0 = self.lmap();
        let ghost old_pairs = self.cpairs();
        let ghost old_lpairs = self.lpairs();
        // every id whose path lies in the subtree
        let n: usize = self.conns.len();
        let mut removed: Vec<usize> = Vec::new();
        let mut i: usize = 0;
        while i < n
            invariant
                n == self.conns@.len(),
                0 <= i <= n,
                droot@ == d,
                old_pairs == self.cpairs(),
                removed@ == removed_ids(self.cpairs().subrange(0, i as int), d),
            decreases n - i,
        {
            proof {
                assert(self.cpairs().subrange(0, i + 1).drop_last() =~= self.cpairs().subrange(
                    0,
                    i as int,
                ));
                assert(self.cpairs().subrange(0, i + 1).last() == self.cpairs()[i as int]);
            }
            if self.conns[i].1.discrim.starts_with(&droot) {
                removed.push(self.conns[i].0);
                proof {
                    assert(removed@ =~= removed_ids(self.cpairs().subrange(0, i + 1), d));
                }
            } else {
                proof {
                    assert(removed@ =~= removed_ids(self.cpairs().subrange(0, i + 1), d));
                }
            }
            i = i + 1;
        }
        proof {
            assert(self.cpairs().subrange(0, n as int) =~= self.cpairs());
            lemma_removed_ids(old_pairs, d);
        }
        let ghost remv = removed@;
        // the labels of the departed leave the registry
        let ln: usize = self.labels.len();
        let mut keep_labels: Vec<(Vec<u8>, usize)> = Vec::new();
        let mut li: usize = 0;
        while li < ln
            invariant
                ln == self.labels@.len(),
                0 <= li <= ln,
                old_lpairs == self.lpairs(),
                remv == removed@,
                keep_labels@.map_values(|p: (Vec<u8>, usize)| (p.0@, p.1)) == labels_kept(
                    self.lpairs().subrange(0, li as int),
                    remv,
                ),
            decreases ln - li,
        {
            proof {
                assert(self.lpairs().subrange(0, li + 1).drop_last() =~= self.lpairs().subrange(
                    0,
                    li as int,
                ));
                assert(self.lpairs().subrange(0, li + 1).last() == self.lpairs()[li as int]);
            }
            if !crate::broker::contains_id(&removed, self.labels[li].1) {
                let key = dup_bytes(&self.labels[li].0);
                keep_labels.push((key, self.labels[li].1));
                proof {
                    assert(keep_labels@.map_values(|p: (Vec<u8>, usize)| (p.0@, p.1))
                        =~= labels_kept(self.lpairs().subrange(0, li + 1), remv));
                }
            } else {
                proof {
                    assert(keep_labels@.map_values(|p: (Vec<u8>, usize)| (p.0@, p.1))
                        =~= labels_kept(self.lpairs().subrange(0, li + 1), remv));
                }
            }
            li = li + 1;
        }
        proof {
            assert(self.lpairs().subrange(0, ln as int) =~= self.lpairs());
        }
        self.labels = keep_labels;
        proof {
            lemma_labels_kept(old_lpairs, remv);
        }
        // the kept components, each purged of the departed
        self.rebuild_kept(&droot, &removed);
        proof {
            lemma_subtree_amap(old_pairs, d, remv);
            lemma_subtree_tree_wf(cm0, lm0, id, remv);
            assert(self.cmap() == Map::new(
                |x: usize| cm0.dom().contains(x) && !is_prefix_of(d, cm0[x].discrim),
                |x: usize| purge_conn_many(cm0[x], remv),
            ));
        }
        true
    }
}

/// Removing a leaf and purging every reference to it keeps the tree and
/// label invariants.
#[verifier::rlimit(100)]
pub proof fn lemma_purge_tree_wf(cm0: Map<usize, ConnV>, lm0: Map<Seq<u8>, usize>, id: usize)
    requires
        tree_wf(cm0, lm0),
        id != 0,
        cm0.dom().contains(id),
        cm0[id].children.len() == 0,
    ensures
        tree_wf(
            Map::new(
                |x: usize| cm0.dom().contains(x) && x != id,
                |x: usize| purge_conn(cm0[x], id),
            ),
            lm0.remove(cm0[id].label),
        ),
{
    let cm1 = Map::new(
        |x: usize| cm0.dom().contains(x) && x != id,
        |x: usize| purge_conn(cm0[x], id),
    );
    let lm1 = lm0.remove(cm0[id].label);
    assert(cm1.dom().contains(0));
    assert(cm1[0].parent == 0 && cm1[0].discrim == Seq::<usize>::empty());
    assert forall|i: usize| #[trigger] cm1.dom().contains(i) implies {
        &&& cm1[i].children.no_duplicates()
        &&& forall|j: int|
            0 <= j < cm1[i].children.len() ==> {
                let c = #[trigger] cm1[i].children[j];
                &&& cm1.dom().contains(c)
                &&& c != 0
                &&& cm1[c].parent == i
                &&& cm1[c].discrim == cm1[i].discrim.push(c)
            }
    } by {
        let ws = cm0[i].children;
        crate::pool::lemma_drop_watcher_keeps(ws, id);
        let f = crate::pool::drop_watcher(ws, id);
        assert(cm1[i].children == f);
        assert(f.no_duplicates()) by {
            crate::pool::lemma_drop_one_as_dead(ws, id);
            assert(forall|a: int, b: int| 0 <= a < b < ws.len() ==> ws[a] != ws[b]);
            assert(crate::pool::watchers_distinct(ws));
            crate::pool::lemma_drop_dead_distinct(ws, seq![id]);
        }
        assert forall|j: int| 0 <= j < f.len() implies {
            let c = #[trigger] f[j];
            &&& cm1.dom().contains(c)
            &&& c != 0
            &&& cm1[c].parent == i
            &&& cm1[c].discrim == cm1[i].discrim.push(c)
        } by {
            let c = f[j];
            assert(c != id);
            assert(ws.contains(c));
            let v = choose|v: int| 0 <= v < ws.len() && ws[v] == c;
            assert(cm0[i].children[v] == c);
            assert(cm0.dom().contains(c) && c != 0 && cm0[c].parent == i && cm0[c].discrim
                == cm0[i].discrim.push(c));
        }
    }
    assert forall|i: usize| #[trigger] cm1.dom().contains(i) && i != 0 implies {
        &&& cm1[i].discrim.len() > 0
        &&& cm1[i].discrim.last() == i
        &&& cm1.dom().contains(cm1[i].parent)
        &&& cm1[i].parent != i
        &&& cm1[cm1[i].parent].discrim == cm1[i].discrim.drop_last()
        &&& cm1[cm1[i].parent].children.contains(i)
        &&& cm1[cm1[i].parent].kind is Space
    } by {
        let px = cm0[i].parent;
        assert(cm0.dom().contains(px));
        assert(px != id) by {
            if px == id {
                assert(cm0[id].children.contains(i));
                let v = choose|v: int|
                    0 <= v < cm0[id].children.len() && cm0[id].children[v] == i;
            }
        }
        assert(cm1.dom().contains(px));
        crate::pool::lemma_drop_watcher_keeps(cm0[px].children, id);
        assert(cm1[px].children.contains(i));
    }
    assert forall|l: Seq<u8>| #[trigger] lm1.dom().contains(l) implies cm1.dom().contains(
        lm1[l],
    ) && cm1[lm1[l]].label == l by {
        assert(lm0.dom().contains(l));
        let y = lm0[l];
        assert(cm0.dom().contains(y) && cm0[y].label == l);
        assert(y != id) by {
            if y == id {
                assert(cm0[id].label == l);
                assert(l == cm0[id].label);
            }
        }
    }
    assert forall|x: usize| #[trigger] cm1.dom().contains(x) implies lm1.dom().contains(
        cm1[x].label,
    ) && lm1[cm1[x].label] == x by {
        assert(cm0.dom().contains(x));
        assert(cm1[x].label == cm0[x].label);
        assert(lm0.dom().contains(cm0[x].label) && lm0[cm0[x].label] == x);
        assert(cm0[x].label != cm0[id].label) by {
            if cm0[x].label == cm0[id].label {
                assert(lm0[cm0[id].label] == id);
            }
        }
    }
}

impl Registry {

    /// Add a suppressor on `channel` of component `id`; yields the fresh
    /// suppressor id, or nothing when the component is unknown.
    pub fn suppress(&mut self, id: usize, channel: Subscription, priority: u32) -> (r: Option<u32>)
        requires
            old(self).wf(),
            old(self).cmap().dom().contains(id) ==> old(self).cmap()[id].sups_state < u32::MAX
                && old(self).cmap()[id].sups_next < u32::MAX,
        ensures
            final(self).wf(),
            final(self).lmap() == old(self).lmap(),
            match r {
                Option::Some(sid) => old(self).cmap().dom().contains(id) && sid == old(
                    self,
                ).cmap()[id].sups_next && final(self).cmap() == old(self).cmap().insert(
                    id,
                    ConnV {
                        sups: crate::suppressor::after_suppress(
                            old(self).cmap()[id].sups,
                            channel@,
                            SuppressItem { priority, id: sid },
                        ),
                        sups_state: (old(self).cmap()[id].sups_state + 1) as u32,
                        sups_next: (old(self).cmap()[id].sups_next + 1) as u32,
                        ..old(self).cmap()[id]
                    },
                ),
                Option::None => !old(self).cmap().dom().contains(id) && final(self).cmap()
                    == old(self).cmap(),
            },
    {
        proof {
            lemma_amap_dom::<usize, ConnV>(self.cpairs());
        }
        match self.find_conn(id) {
            Some(i) => {
                let sid = self.suppress_at(id, i, channel, priority);
                Some(sid)
            },
            None => {
                None
            },
        }
    }

    /// The mutation step of `suppress`, at a known table position.
    #[verifier::rlimit(100)]
    fn suppress_at(&mut self, id: usize, i: usize, channel: Subscription, priority: u32) -> (sid:
        u32)
        requires
            old(self).wf(),
            i < old(self).cpairs().len(),
            old(self).cpairs()[i as int].0 == id,
            old(self).cmap().dom().contains(id),
            old(self).cmap()[id].sups_state < u32::MAX,
            old(self).cmap()[id].sups_next < u32::MAX,
        ensures
            final(self).wf(),
            final(self).lmap() == old(self).lmap(),
            sid == old(self).cmap()[id].sups_next,
            final(self).cmap() == old(self).cmap().insert(
                id,
                ConnV {
                    sups: crate::suppressor::after_suppress(
                        old(self).cmap()[id].sups,
                        channel@,
                        SuppressItem { priority, id: sid },
                    ),
                    sups_state: (old(self).cmap()[id].sups_state + 1) as u32,
                    sups_next: (old(self).cmap()[id].sups_next + 1) as u32,
                    ..old(self).cmap()[id]
                },
            ),
    {
        let ghost old_pairs = self.cpairs();
        proof {
            lemma_amap_get(old_pairs, i as int);
        }
        let (key, mut conn) = self.conns.remove(i);
        let sid = conn.suppressors.insert(channel, priority);
        self.conns.insert(i, (key, conn));
        proof {
            let cm0 = amap(old_pairs);
            let new_cv = ConnV {
                sups: crate::suppressor::after_suppress(
                    old_pairs[i as int].1.sups,
                    channel@,
                    SuppressItem { priority, id: sid },
                ),
                sups_state: (old_pairs[i as int].1.sups_state + 1) as u32,
                sups_next: (old_pairs[i as int].1.sups_next + 1) as u32,
                ..old_pairs[i as int].1
            };
            assert(cv(self.conns@[i as int].1) == new_cv);
            assert(self.cpairs() =~= old_pairs.update(i as int, (id, new_cv)));
            lemma_update_one(old_pairs, i as int, new_cv, self.lmap());
            assert(self.cmap() == cm0.insert(id, new_cv));
            assert forall|w: int| 0 <= w < self.conns@.len() implies {
                &&& (#[trigger] self.conns@[w]).1.pool.wf()
                &&& self.conns@[w].1.suppressors.wf()
                &&& self.conns@[w].1.passes.wf()
            } by {
                if w != i {
                    assert(self.conns@[w] == old(self).conns@[w]);
                }
            }
        }
        sid
    }

    /// Remove suppressor `sid` from `channel` of component `id`; yields
    /// whether one was removed, or nothing when the component is unknown.
    pub fn unsuppress(&mut self, id: usize, channel: Subscription, sid: u32) -> (r: Option<bool>)
        requires
            old(self).wf(),
            old(self).cmap().dom().contains(id) ==> old(self).cmap()[id].sups_state < u32::MAX,
        ensures
            final(self).wf(),
            final(self).lmap() == old(self).lmap(),
            match r {
                Option::Some(b) => old(self).cmap().dom().contains(id) && {
                    let res = crate::suppressor::after_unsuppress(
                        old(self).cmap()[id].sups,
                        channel@,
                        sid,
                    );
                    b == res.1 && final(self).cmap() == old(self).cmap().insert(
                        id,
                        ConnV {
                            sups: res.0,
                            sups_state: (old(self).cmap()[id].sups_state + 1) as u32,
                            ..old(self).cmap()[id]
                        },
                    )
                },
                Option::None => !old(self).cmap().dom().contains(id) && final(self).cmap()
                    == old(self).cmap(),
            },
    {
        proof {
            lemma_amap_dom::<usize, ConnV>(self.cpairs());
        }
        match self.find_conn(id) {
            Some(i) => {
                let b = self.unsuppress_at(id, i, channel, sid);
                Some(b)
            },
            None => {
                None
            },
        }
    }

    /// The mutation step of `unsuppress`, at a known table position.
    #[verifier::rlimit(100)]
    fn unsuppress_at(&mut self, id: usize, i: usize, channel: Subscription, sid: u32) -> (b:
        bool)
        requires
            old(self).wf(),
            i < old(self).cpairs().len(),
            old(self).cpairs()[i as int].0 == id,
            old(self).cmap().dom().contains(id),
            old(self).cmap()[id].sups_state < u32::MAX,
        ensures
            final(self).wf(),
            final(self).lmap() == old(self).lmap(),
            ({
                let res = crate::suppressor::after_unsuppress(
                    old(self).cmap()[id].sups,
                    channel@,
                    sid,
                );
                b == res.1 && final(self).cmap() == old(self).cmap().insert(
                    id,
                    ConnV {
                        sups: res.0,
                        sups_state: (old(self).cmap()[id].sups_state + 1) as u32,
                        ..old(self).cmap()[id]
                    },
                )
            }),
    {
        let ghost old_pairs = self.cpairs();
        proof {
            lemma_amap_get(old_pairs, i as int);
        }
        let (key, mut conn) = self.conns.remove(i);
        let b = conn.suppressors.remove(channel, sid);
        self.conns.insert(i, (key, conn));
        proof {
            let cm0 = amap(old_pairs);
            let new_cv = ConnV {
                sups: crate::suppressor::after_unsuppress(
                    old_pairs[i as int].1.sups,
                    channel@,
                    sid,
                ).0,
                sups_state: (old_pairs[i as int].1.sups_state + 1) as u32,
                ..old_pairs[i as int].1
            };
            assert(cv(self.conns@[i as int].1) == new_cv);
            assert(self.cpairs() =~= old_pairs.update(i as int, (id, new_cv)));
            lemma_update_one(old_pairs, i as int, new_cv, self.lmap());
            assert(self.cmap() == cm0.insert(id, new_cv));
            assert forall|w: int| 0 <= w < self.conns@.len() implies {
                &&& (#[trigger] self.conns@[w]).1.pool.wf()
                &&& self.conns@[w].1.suppressors.wf()
                &&& self.conns@[w].1.passes.wf()
            } by {
                if w != i {
                    assert(self.conns@[w] == old(self).conns@[w]);
                }
            }
        }
        b
    }

    /// Set pool entry `label` of component `id` to `value`; yields the
    /// watchers to notify, or nothing when the component is unknown.
    #[verifier::rlimit(60)]
    pub fn pool_set(&mut self, id: usize, label: &Vec<u8>, value: Vec<u8>) -> (r: Option<Vec<usize>>)
        requires
            old(self).wf(),
        ensures
            final(self).wf(),
            final(self).lmap() == old(self).lmap(),
            match r {
                Option::Some(ws) => old(self).cmap().dom().contains(id) && final(self).cmap()
                    == old(self).cmap().insert(
                    id,
                    ConnV {
                        pool: crate::pool::after_set(old(self).cmap()[id].pool, label@, value@),
                        ..old(self).cmap()[id]
                    },
                ) && ws@ == crate::pool::after_set(
                    old(self).cmap()[id].pool,
                    label@,
                    value@,
                )[label@].1,
                Option::None => !old(self).cmap().dom().contains(id) && final(self).cmap()
                    == old(self).cmap(),
            },
    {
        proof {
            lemma_amap_dom::<usize, ConnV>(self.cpairs());
        }
        match self.find_conn(id) {
            Some(i) => {
                let ghost old_pairs = self.cpairs();
                proof {
                    lemma_amap_get(old_pairs, i as int);
                }
                let (key, mut conn) = self.conns.remove(i);
                let ws = conn.pool.set(label, value);
                self.conns.insert(i, (key, conn));
                proof {
                    let cm0 = amap(old_pairs);
                    let new_cv = ConnV {
                        pool: crate::pool::after_set(
                            old_pairs[i as int].1.pool,
                            label@,
                            value@,
                        ),
                        ..old_pairs[i as int].1
                    };
                    assert(cv(self.conns@[i as int].1) == new_cv);
                    assert(self.cpairs() =~= old_pairs.update(i as int, (id, new_cv)));
                    lemma_update_one(old_pairs, i as int, new_cv, self.lmap());
                    assert(self.cmap() == cm0.insert(id, new_cv));
                    assert forall|w: int| 0 <= w < self.conns@.len() implies {
                        &&& (#[trigger] self.conns@[w]).1.pool.wf()
                        &&& self.conns@[w].1.suppressors.wf()
                        &&& self.conns@[w].1.passes.wf()
                    } by {
                        if w != i {
                            assert(self.conns@[w] == old(self).conns@[w]);
                        }
                    }
                }
                Some(ws)
            },
            None => {
                None
            },
        }
    }

    /// Clear pool entry `label` of component `id`; yields the watchers to
    /// notify, or nothing when the component is unknown.
    #[verifier::rlimit(60)]
    pub fn pool_clear(&mut self, id: usize, label: &Vec<u8>) -> (r: Option<Vec<usize>>)
        requires
            old(self).wf(),
        ensures
            final(self).wf(),
            final(self).lmap() == old(self).lmap(),
            match r {
                Option::Some(ws) => old(self).cmap().dom().contains(id) && final(self).cmap()
                    == old(self).cmap().insert(
                    id,
                    ConnV {
                        pool: crate::pool::after_remove(old(self).cmap()[id].pool, label@),
                        ..old(self).cmap()[id]
                    },
                ) && ws@ == if old(self).cmap()[id].pool.dom().contains(label@) {
                    old(self).cmap()[id].pool[label@].1
                } else {
                    Seq::<usize>::empty()
                },
                Option::None => !old(self).cmap().dom().contains(id) && final(self).cmap()
                    == old(self).cmap(),
            },
    {
        proof {
            lemma_amap_dom::<usize, ConnV>(self.cpairs());
        }
        match self.find_conn(id) {
            Some(i) => {
                let ghost old_pairs = self.cpairs();
                proof {
                    lemma_amap_get(old_pairs, i as int);
                }
                let (key, mut conn) = self.conns.remove(i);
                let ws = conn.pool.remove(label);
                self.conns.insert(i, (key, conn));
                proof {
                    let cm0 = amap(old_pairs);
                    let new_cv = ConnV {
                        pool: crate::pool::after_remove(old_pairs[i as int].1.pool, label@),
                        ..old_pairs[i as int].1
                    };
                    assert(cv(self.conns@[i as int].1) == new_cv);
                    assert(self.cpairs() =~= old_pairs.update(i as int, (id, new_cv)));
                    lemma_update_one(old_pairs, i as int, new_cv, self.lmap());
                    assert(self.cmap() == cm0.insert(id, new_cv));
                    assert forall|w: int| 0 <= w < self.conns@.len() implies {
                        &&& (#[trigger] self.conns@[w]).1.pool.wf()
                        &&& self.conns@[w].1.suppressors.wf()
                        &&& self.conns@[w].1.passes.wf()
                    } by {
                        if w != i {
                            assert(self.conns@[w] == old(self).conns@[w]);
                        }
                    }
                }
                Some(ws)
            },
            None => {
                None
            },
        }
    }

    /// Register `watcher` on pool entry `label` of component `id`; returns
    /// whether the component exists.
    #[verifier::rlimit(60)]
    pub fn pool_watch(&mut self, id: usize, label: &Vec<u8>, watcher: usize) -> (r: bool)
        requires
            old(self).wf(),
        ensures
            final(self).wf(),
            final(self).lmap() == old(self).lmap(),
            r == old(self).cmap().dom().contains(id),
            r ==> final(self).cmap() == old(self).cmap().insert(
                id,
                ConnV {
                    pool: {
                        let m = old(self).cmap()[id].pool;
                        if m.dom().contains(label@) {
                            if m[label@].1.contains(watcher) {
                                m
                            } else {
                                m.insert(label@, (m[label@].0, m[label@].1.push(watcher)))
                            }
                        } else {
                            m.insert(label@, (None, seq![watcher]))
                        }
                    },
                    ..old(self).cmap()[id]
                },
            ),
            !r ==> final(self).cmap() == old(self).cmap(),
    {
        proof {
            lemma_amap_dom::<usize, ConnV>(self.cpairs());
        }
        match self.find_conn(id) {
            Some(i) => {
                let ghost old_pairs = self.cpairs();
                proof {
                    lemma_amap_get(old_pairs, i as int);
                }
                let (key, mut conn) = self.conns.remove(i);
                conn.pool.watch(label, watcher);
                self.conns.insert(i, (key, conn));
                proof {
                    let cm0 = amap(old_pairs);
                    let new_cv = ConnV {
                        pool: {
                            let m = old_pairs[i as int].1.pool;
                            if m.dom().contains(label@) {
                                if m[label@].1.contains(watcher) {
                                    m
                                } else {
                                    m.insert(
                                        label@,
                                        (m[label@].0, m[label@].1.push(watcher)),
                                    )
                                }
                            } else {
                                m.insert(label@, (None, seq![watcher]))
                            }
                        },
                        ..old_pairs[i as int].1
                    };
                    assert(cv(self.conns@[i as int].1) == new_cv);
                    assert(self.cpairs() =~= old_pairs.update(i as int, (id, new_cv)));
                    lemma_update_one(old_pairs, i as int, new_cv, self.lmap());
                    assert(self.cmap() == cm0.insert(id, new_cv));
                    assert forall|w: int| 0 <= w < self.conns@.len() implies {
                        &&& (#[trigger] self.conns@[w]).1.pool.wf()
                        &&& self.conns@[w].1.suppressors.wf()
                        &&& self.conns@[w].1.passes.wf()
                    } by {
                        if w != i {
                            assert(self.conns@[w] == old(self).conns@[w]);
                        }
                    }
                }
                true
            },
            None => {
                false
            },
        }
    }

    /// Remove `watcher` from pool entry `label` of component `id`; reports
    /// what was found, or nothing when the component is unknown.
    #[verifier::rlimit(100)]
    #[verifier::spinoff_prover]
    pub fn pool_unwatch(&mut self, id: usize, label: &Vec<u8>, watcher: usize) -> (r: Option<crate::pool::UnwatchOutcome>)
        requires
            old(self).wf(),
        ensures
            final(self).wf(),
            final(self).lmap() == old(self).lmap(),
            match r {
                Option::Some(o) => old(self).cmap().dom().contains(id) && {
                    let m = old(self).cmap()[id].pool;
                    match o {
                        crate::pool::UnwatchOutcome::NoEntry => !m.dom().contains(label@)
                            && final(self).cmap() == old(self).cmap().insert(
                            id,
                            ConnV { pool: m, ..old(self).cmap()[id] },
                        ),
                        crate::pool::UnwatchOutcome::NotWatching => m.dom().contains(label@)
                            && !m[label@].1.contains(watcher) && final(self).cmap() == old(
                            self,
                        ).cmap().insert(id, ConnV { pool: m, ..old(self).cmap()[id] }),
                        crate::pool::UnwatchOutcome::Removed => m.dom().contains(label@)
                            && m[label@].1.contains(watcher) && {
                            let left = (
                                m[label@].0,
                                crate::pool::drop_watcher(m[label@].1, watcher),
                            );
                            final(self).cmap() == old(self).cmap().insert(
                                id,
                                ConnV {
                                    pool: if crate::pool::item_live(left) {
                                        m.insert(label@, left)
                                    } else {
                                        m.remove(label@)
                                    },
                                    ..old(self).cmap()[id]
                                },
                            )
                        },
                    }
                },
                Option::None => !old(self).cmap().dom().contains(id) && final(self).cmap()
                    == old(self).cmap(),
            },
    {
        proof {
            lemma_amap_dom::<usize, ConnV>(self.cpairs());
        }
        match self.find_conn(id) {
            Some(i) => {
                let ghost old_pairs = self.cpairs();
                proof {
                    lemma_amap_get(old_pairs, i as int);
                }
                let (key, mut conn) = self.conns.remove(i);
                let o = conn.pool.unwatch(label, watcher);
                let ghost new_pool = conn.pool@;
                self.conns.insert(i, (key, conn));
                proof {
                    let cm0 = amap(old_pairs);
                    let new_cv = ConnV { pool: new_pool, ..old_pairs[i as int].1 };
                    assert(cv(self.conns@[i as int].1) == new_cv);
                    assert(self.cpairs() =~= old_pairs.update(i as int, (id, new_cv)));
                    lemma_update_one(old_pairs, i as int, new_cv, self.lmap());
                    assert(self.cmap() == cm0.insert(id, new_cv));
                    assert forall|w: int| 0 <= w < self.conns@.len() implies {
                        &&& (#[trigger] self.conns@[w]).1.pool.wf()
                        &&& self.conns@[w].1.suppressors.wf()
                        &&& self.conns@[w].1.passes.wf()
                    } by {
                        if w != i {
                            assert(self.conns@[w] == old(self).conns@[w]);
                        }
                    }
                }
                Some(o)
            },
            None => {
                None
            },
        }
    }

    /// Prune dead watchers from pool entry `label` of component `id` after a
    /// broadcast; returns whether the component exists.
    #[verifier::rlimit(60)]
    pub fn pool_prune(&mut self, id: usize, label: &Vec<u8>, dead: &Vec<usize>) -> (r: bool)
        requires
            old(self).wf(),
        ensures
            final(self).wf(),
            final(self).lmap() == old(self).lmap(),
            r == old(self).cmap().dom().contains(id),
            r ==> final(self).cmap() == old(self).cmap().insert(
                id,
                ConnV {
                    pool: {
                        let m = old(self).cmap()[id].pool;
                        if m.dom().contains(label@) {
                            let left = (
                                m[label@].0,
                                crate::pool::drop_dead(m[label@].1, dead@),
                            );
                            if crate::pool::item_live(left) {
                                m.insert(label@, left)
                            } else {
                                m.remove(label@)
                            }
                        } else {
                            m
                        }
                    },
                    ..old(self).cmap()[id]
                },
            ),
            !r ==> final(self).cmap() == old(self).cmap(),
    {
        proof {
            lemma_amap_dom::<usize, ConnV>(self.cpairs());
        }
        match self.find_conn(id) {
            Some(i) => {
                let ghost old_pairs = self.cpairs();
                proof {
                    lemma_amap_get(old_pairs, i as int);
                }
                let (key, mut conn) = self.conns.remove(i);
                conn.pool.remove_watchers(label, dead);
                let ghost new_pool = conn.pool@;
                self.conns.insert(i, (key, conn));
                proof {
                    let cm0 = amap(old_pairs);
                    let new_cv = ConnV { pool: new_pool, ..old_pairs[i as int].1 };
                    assert(cv(self.conns@[i as int].1) == new_cv);
                    assert(self.cpairs() =~= old_pairs.update(i as int, (id, new_cv)));
                    lemma_update_one(old_pairs, i as int, new_cv, self.lmap());
                    assert(self.cmap() == cm0.insert(id, new_cv));
                    assert forall|w: int| 0 <= w < self.conns@.len() implies {
                        &&& (#[trigger] self.conns@[w]).1.pool.wf()
                        &&& self.conns@[w].1.suppressors.wf()
                        &&& self.conns@[w].1.passes.wf()
                    } by {
                        if w != i {
                            assert(self.conns@[w] == old(self).conns@[w]);
                        }
                    }
                }
                true
            },
            None => {
                false
            },
        }
    }

    /// Subscribe `item` on `channel` of space `id`; yields whether it was
    /// newly added, or nothing when the space is unknown.
    pub fn pass_subscribe(&mut self, id: usize, channel: Subscription, item: PassItem) -> (r:
        Option<bool>)
        requires
            old(self).wf(),
        ensures
            final(self).wf(),
            final(self).lmap() == old(self).lmap(),
            match r {
                Option::Some(b) => old(self).cmap().dom().contains(id) && {
                    let res = crate::passes::after_subscribe(
                        old(self).cmap()[id].passes,
                        channel@,
                        item,
                    );
                    b == res.1 && final(self).cmap() == old(self).cmap().insert(
                        id,
                        ConnV { passes: res.0, ..old(self).cmap()[id] },
                    )
                },
                Option::None => !old(self).cmap().dom().contains(id) && final(self).cmap()
                    == old(self).cmap(),
            },
    {
        proof {
            lemma_amap_dom::<usize, ConnV>(self.cpairs());
        }
        match self.find_conn(id) {
            Some(i) => {
                let b = self.pass_subscribe_at(id, i, channel, item);
                Some(b)
            },
            None => {
                None
            },
        }
    }

    /// The mutation step of `pass_subscribe`, at a known table position.
    #[verifier::rlimit(100)]
    fn pass_subscribe_at(&mut self, id: usize, i: usize, channel: Subscription, item: PassItem)
        -> (b: bool)
        requires
            old(self).wf(),
            i < old(self).cpairs().len(),
            old(self).cpairs()[i as int].0 == id,
            old(self).cmap().dom().contains(id),
        ensures
            final(self).wf(),
            final(self).lmap() == old(self).lmap(),
            ({
                let res = crate::passes::after_subscribe(
                    old(self).cmap()[id].passes,
                    channel@,
                    item,
                );
                b == res.1 && final(self).cmap() == old(self).cmap().insert(
                    id,
                    ConnV { passes: res.0, ..old(self).cmap()[id] },
                )
            }),
    {
        let ghost old_pairs = self.cpairs();
        proof {
            lemma_amap_get(old_pairs, i as int);
        }
        let (key, mut conn) = self.conns.remove(i);
        let b = conn.passes.subscribe(channel, item);
        self.conns.insert(i, (key, conn));
        proof {
            let cm0 = amap(old_pairs);
            let new_cv = ConnV {
                passes: crate::passes::after_subscribe(
                    old_pairs[i as int].1.passes,
                    channel@,
                    item,
                ).0,
                ..old_pairs[i as int].1
            };
            assert(cv(self.conns@[i as int].1) == new_cv);
            assert(self.cpairs() =~= old_pairs.update(i as int, (id, new_cv)));
            lemma_update_one(old_pairs, i as int, new_cv, self.lmap());
            assert(self.cmap() == cm0.insert(id, new_cv));
            assert forall|w: int| 0 <= w < self.conns@.len() implies {
                &&& (#[trigger] self.conns@[w]).1.pool.wf()
                &&& self.conns@[w].1.suppressors.wf()
                &&& self.conns@[w].1.passes.wf()
            } by {
                if w != i {
                    assert(self.conns@[w] == old(self).conns@[w]);
                }
            }
        }
        b
    }

    /// Unsubscribe `sub_id` from `channel` of space `id`; yields whether it
    /// was subscribed, or nothing when the space is unknown.
    #[verifier::rlimit(60)]
    pub fn pass_unsubscribe(&mut self, id: usize, channel: Subscription, sub_id: usize) -> (r: Option<bool>)
        requires
            old(self).wf(),
        ensures
            final(self).wf(),
            final(self).lmap() == old(self).lmap(),
            match r {
                Option::Some(b) => old(self).cmap().dom().contains(id) && b
                    == crate::passes::after_unsubscribe(
                    old(self).cmap()[id].passes,
                    channel@,
                    sub_id,
                ).1 && final(self).cmap() == old(self).cmap().insert(
                    id,
                    ConnV {
                        passes: crate::passes::after_unsubscribe(
                            old(self).cmap()[id].passes,
                            channel@,
                            sub_id,
                        ).0,
                        ..old(self).cmap()[id]
                    },
                ),
                Option::None => !old(self).cmap().dom().contains(id) && final(self).cmap()
                    == old(self).cmap(),
            },
    {
        proof {
            lemma_amap_dom::<usize, ConnV>(self.cpairs());
        }
        match self.find_conn(id) {
            Some(i) => {
                let ghost old_pairs = self.cpairs();
                proof {
                    lemma_amap_get(old_pairs, i as int);
                }
                let (key, mut conn) = self.conns.remove(i);
                let b = conn.passes.unsubscribe(channel, sub_id);
                self.conns.insert(i, (key, conn));
                proof {
                    let cm0 = amap(old_pairs);
                    let new_cv = ConnV {
                        passes: crate::passes::after_unsubscribe(
                            old_pairs[i as int].1.passes,
                            channel@,
                            sub_id,
                        ).0,
                        ..old_pairs[i as int].1
                    };
                    assert(cv(self.conns@[i as int].1) == new_cv);
                    assert(self.cpairs() =~= old_pairs.update(i as int, (id, new_cv)));
                    lemma_update_one(old_pairs, i as int, new_cv, self.lmap());
                    assert(self.cmap() == cm0.insert(id, new_cv));
                    assert forall|w: int| 0 <= w < self.conns@.len() implies {
                        &&& (#[trigger] self.conns@[w]).1.pool.wf()
                        &&& self.conns@[w].1.suppressors.wf()
                        &&& self.conns@[w].1.passes.wf()
                    } by {
                        if w != i {
                            assert(self.conns@[w] == old(self).conns@[w]);
                        }
                    }
                }
                Some(b)
            },
            None => {
                None
            },
        }
    }

    /// Set the focus state of space `id`; returns whether the space exists.
    #[verifier::rlimit(60)]
    pub fn set_focus(&mut self, id: usize, f: Focus) -> (r: bool)
        requires
            old(self).wf(),
        ensures
            final(self).wf(),
            final(self).lmap() == old(self).lmap(),
            r == old(self).cmap().dom().contains(id),
            r ==> final(self).cmap() == old(self).cmap().insert(
                id,
                ConnV { focus: f, ..old(self).cmap()[id] },
            ),
            !r ==> final(self).cmap() == old(self).cmap(),
    {
        proof {
            lemma_amap_dom::<usize, ConnV>(self.cpairs());
        }
        match self.find_conn(id) {
            Some(i) => {
                let ghost old_pairs = self.cpairs();
                proof {
                    lemma_amap_get(old_pairs, i as int);
                }
                let (key, mut conn) = self.conns.remove(i);
                conn.focus = f;
                self.conns.insert(i, (key, conn));
                proof {
                    let cm0 = amap(old_pairs);
                    let new_cv = ConnV { focus: f, ..old_pairs[i as int].1 };
                    assert(cv(self.conns@[i as int].1) == new_cv);
                    assert(self.cpairs() =~= old_pairs.update(i as int, (id, new_cv)));
                    lemma_update_one(old_pairs, i as int, new_cv, self.lmap());
                    assert(self.cmap() == cm0.insert(id, new_cv));
                    assert forall|w: int| 0 <= w < self.conns@.len() implies {
                        &&& (#[trigger] self.conns@[w]).1.pool.wf()
                        &&& self.conns@[w].1.suppressors.wf()
                        &&& self.conns@[w].1.passes.wf()
                    } by {
                        if w != i {
                            assert(self.conns@[w] == old(self).conns@[w]);
                        }
                    }
                }
                true
            },
            None => {
                false
            },
        }
    }
}

/// Mutations that leave every component's id, path, parent, children, kind
/// and label alone keep the tree and label invariants.
pub proof fn lemma_tree_wf_same_shape(
    cm0: Map<usize, ConnV>,
    cm1: Map<usize, ConnV>,
    lm: Map<Seq<u8>, usize>,
)
    requires
        tree_wf(cm0, lm),
        cm1.dom() == cm0.dom(),
        forall|x: usize| #[trigger]
            cm0.dom().contains(x) ==> {
                &&& cm1[x].discrim == cm0[x].discrim
                &&& cm1[x].parent == cm0[x].parent
                &&& cm1[x].children == cm0[x].children
                &&& cm1[x].kind == cm0[x].kind
                &&& cm1[x].label == cm0[x].label
            },
    ensures
        tree_wf(cm1, lm),
{
    assert forall|i: usize| #[trigger] cm1.dom().contains(i) implies {
        &&& cm1[i].children.no_duplicates()
        &&& forall|j: int|
            0 <= j < cm1[i].children.len() ==> {
                let c = #[trigger] cm1[i].children[j];
                &&& cm1.dom().contains(c)
                &&& c != 0
                &&& cm1[c].parent == i
                &&& cm1[c].discrim == cm1[i].discrim.push(c)
            }
    } by {
        assert(cm0.dom().contains(i));
        assert forall|j: int| 0 <= j < cm1[i].children.len() implies {
            let c = #[trigger] cm1[i].children[j];
            &&& cm1.dom().contains(c)
            &&& c != 0
            &&& cm1[c].parent == i
            &&& cm1[c].discrim == cm1[i].discrim.push(c)
        } by {
            let c = cm1[i].children[j];
            assert(cm0[i].children[j] == c);
        }
    }
    assert forall|i: usize| #[trigger] cm1.dom().contains(i) && i != 0 implies {
        &&& cm1[i].discrim.len() > 0
        &&& cm1[i].discrim.last() == i
        &&& cm1.dom().contains(cm1[i].parent)
        &&& cm1[i].parent != i
        &&& cm1[cm1[i].parent].discrim == cm1[i].discrim.drop_last()
        &&& cm1[cm1[i].parent].children.contains(i)
        &&& cm1[cm1[i].parent].kind is Space
    } by {
        assert(cm0.dom().contains(i));
    }
}

/// Overwriting one component's own tables (same id, path, parent, children,
/// kind and label) keeps the registry invariants and denotes a map insert.
pub proof fn lemma_update_one(
    old_pairs: Seq<(usize, ConnV)>,
    i: int,
    new_cv: ConnV,
    lm: Map<Seq<u8>, usize>,
)
    requires
        keys_unique(old_pairs),
        0 <= i < old_pairs.len(),
        tree_wf(amap(old_pairs), lm),
        new_cv.discrim == old_pairs[i].1.discrim,
        new_cv.parent == old_pairs[i].1.parent,
        new_cv.children == old_pairs[i].1.children,
        new_cv.kind == old_pairs[i].1.kind,
        new_cv.label == old_pairs[i].1.label,
    ensures
        keys_unique(old_pairs.update(i, (old_pairs[i].0, new_cv))),
        amap(old_pairs.update(i, (old_pairs[i].0, new_cv))) == amap(old_pairs).insert(
            old_pairs[i].0,
            new_cv,
        ),
        tree_wf(amap(old_pairs).insert(old_pairs[i].0, new_cv), lm),
{
    lemma_amap_update(old_pairs, i, new_cv);
    lemma_amap_get(old_pairs, i);
    let cm0 = amap(old_pairs);
    let id = old_pairs[i].0;
    let cm1 = cm0.insert(id, new_cv);
    assert(cm1.dom() =~= cm0.dom());
    assert forall|x: usize| #[trigger] cm0.dom().contains(x) implies {
        &&& cm1[x].discrim == cm0[x].discrim
        &&& cm1[x].parent == cm0[x].parent
        &&& cm1[x].children == cm0[x].children
        &&& cm1[x].kind == cm0[x].kind
        &&& cm1[x].label == cm0[x].label
    } by {
        if x != id {
            assert(cm1[x] == cm0[x]);
        }
    }
    lemma_tree_wf_same_shape(cm0, cm1, lm);
    let t = old_pairs.update(i, (id, new_cv));
    assert forall|a: int, b: int| 0 <= a < b < t.len() implies t[a].0 != t[b].0 by {
        assert(t[a].0 == old_pairs[a].0);
        assert(t[b].0 == old_pairs[b].0);
    }
}

/// The connection graph is a tree rooted at id 0: `parent` and `children`
/// are mutual, the root is its own parent, and following parents strictly
/// shortens the path, so no chain of parents can ever return to its start.
pub proof fn lemma_registry_tree(r: Registry)
    requires
        r.wf(),
    ensures
        r.cmap().dom().contains(0),
        r.cmap()[0].parent == 0,
        forall|i: usize| #[trigger]
            r.cmap().dom().contains(i) && i != 0 ==> {
                &&& r.cmap().dom().contains(r.cmap()[i].parent)
                &&& r.cmap()[r.cmap()[i].parent].children.contains(i)
                &&& r.cmap()[r.cmap()[i].parent].discrim.len() < r.cmap()[i].discrim.len()
            },
        forall|i: usize, j: int|
            #[trigger] r.cmap().dom().contains(i) && 0 <= j < r.cmap()[i].children.len() ==> {
                &&& r.cmap().dom().contains(#[trigger] r.cmap()[i].children[j])
                &&& r.cmap()[r.cmap()[i].children[j]].parent == i
            },
        forall|i: usize| #[trigger]
            r.cmap().dom().contains(i) && i != 0 ==> !is_prefix_of(
                r.cmap()[i].discrim,
                r.cmap()[r.cmap()[i].parent].discrim,
            ),
{
    let cm = r.cmap();
    assert forall|i: usize| #[trigger] cm.dom().contains(i) && i != 0 implies {
        &&& cm.dom().contains(cm[i].parent)
        &&& cm[cm[i].parent].children.contains(i)
        &&& cm[cm[i].parent].discrim.len() < cm[i].discrim.len()
    } by {
        assert(cm[cm[i].parent].discrim == cm[i].discrim.drop_last());
    }
    assert forall|i: usize| #[trigger] cm.dom().contains(i) && i != 0 implies !is_prefix_of(
        cm[i].discrim,
        cm[cm[i].parent].discrim,
    ) by {
        assert(cm[cm[i].parent].discrim == cm[i].discrim.drop_last());
    }
}

/// The label map is a bijection: every component carries exactly one label,
/// every bound label names exactly one component, and distinct labels never
/// share an id.
pub proof fn lemma_label_bijection(r: Registry)
    requires
        r.wf(),
    ensures
        forall|i: usize| #[trigger]
            r.cmap().dom().contains(i) ==> r.lmap().dom().contains(r.cmap()[i].label)
                && r.lmap()[r.cmap()[i].label] == i,
        forall|l: Seq<u8>| #[trigger]
            r.lmap().dom().contains(l) ==> r.cmap().dom().contains(r.lmap()[l])
                && r.cmap()[r.lmap()[l]].label == l,
        forall|l1: Seq<u8>, l2: Seq<u8>|
            r.lmap().dom().contains(l1) && r.lmap().dom().contains(l2) && #[trigger] r.lmap()[l1]
                == #[trigger] r.lmap()[l2] ==> l1 == l2,
{
    assert forall|l1: Seq<u8>, l2: Seq<u8>|
        r.lmap().dom().contains(l1) && r.lmap().dom().contains(l2) && #[trigger] r.lmap()[l1]
            == #[trigger] r.lmap()[l2] implies l1 == l2 by {
        assert(r.cmap()[r.lmap()[l1]].label == l1);
        assert(r.cmap()[r.lmap()[l2]].label == l2);
    }
}

} // verus!
