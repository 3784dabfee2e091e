//! Discriminators: ordered paths of component ids that name nodes in the
//! component tree. The empty path names the implicit master root; a child's
//! path extends its parent's by the child's own id.

use vstd::prelude::*;

verus! {

/// An ordered sequence of component ids identifying a node in the component
/// tree. The empty sequence denotes the implicit master.
pub struct Discriminator(pub Vec<usize>);

impl View for Discriminator {
    type V = Seq<usize>;

    open spec fn view(&self) -> Seq<usize> {
        self.0@
    }
}

impl Clone for Discriminator {
    fn clone(&self) -> (r: Self)
        ensures
            r@ == self@,
    {
        let v = self.0.clone();
        proof {
            assert forall|i: int| 0 <= i < self.0@.len() implies v@[i] == self.0@[i] by {
                assert(cloned::<usize>(self.0@[i], v@[i]));
            }
            assert(v@ =~= self.0@);
        }
        Discriminator(v)
    }
}

/// True when `p` is a prefix of `d`: the node named by `d` lies in the
/// subtree of the node named by `p`.
pub open spec fn is_prefix_of(p: Seq<usize>, d: Seq<usize>) -> bool {
    p.len() <= d.len() && d.subrange(0, p.len() as int) == p
}

impl Discriminator {
    /// The master root: the empty path.
    pub fn master() -> (r: Self)
        ensures
            r@ == Seq::<usize>::empty(),
    {
        Discriminator(Vec::new())
    }

    pub fn is_empty(&self) -> (r: bool)
        ensures
            r == (self@.len() == 0),
    {
        self.0.len() == 0
    }

    pub fn len(&self) -> (r: usize)
        ensures
            r == self@.len(),
    {
        self.0.len()
    }

    /// Structural equality of two paths.
    pub fn matches(&self, other: &Discriminator) -> (r: bool)
        ensures
            r == (self@ == other@),
    {
        if self.0.len() != other.0.len() {
            proof {
                assert(self@ != other@);
            }
            return false;
        }
        let n: usize = self.0.len();
        let mut i: usize = 0;
        while i < n
            invariant
                n == self@.len(),
                n == other@.len(),
                0 <= i <= n,
                forall|j: int| 0 <= j < i ==> self@[j] == other@[j],
            decreases n - i,
        {
            if self.0[i] != other.0[i] {
                return false;
            }
            i = i + 1;
        }
        proof {
            assert(self@ =~= other@);
        }
        true
    }

    /// True when `prefix` is a prefix of `self`.
    pub fn starts_with(&self, prefix: &Discriminator) -> (r: bool)
        ensures
            r == is_prefix_of(prefix@, self@),
    {
        let m: usize = prefix.0.len();
        if m > self.0.len() {
            return false;
        }
        let mut i: usize = 0;
        while i < m
            invariant
                m == prefix@.len(),
                m <= self@.len(),
                0 <= i <= m,
                forall|j: int| 0 <= j < i ==> self@[j] == prefix@[j],
            decreases m - i,
        {
            if self.0[i] != prefix.0[i] {
                proof {
                    assert(self@.subrange(0, m as int)[i as int] != prefix@[i as int]);
                }
                return false;
            }
            i = i + 1;
        }
        proof {
            assert(self@.subrange(0, m as int) =~= prefix@);
        }
        true
    }

    /// The parent's path: everything but the last element. The master has no
    /// parent.
    pub fn immediate_parent(&self) -> (r: Option<Discriminator>)
        ensures
            match r {
                Some(p) => self@.len() > 0 && p@ == self@.subrange(0, self@.len() - 1),
                None => self@.len() == 0,
            },
    {
        if self.0.len() == 0 {
            return None;
        }
        let mut v = self.0.clone();
        proof {
            assert forall|i: int| 0 <= i < self.0@.len() implies v@[i] == self.0@[i] by {
                assert(cloned::<usize>(self.0@[i], v@[i]));
            }
            assert(v@ =~= self.0@);
        }
        v.pop();
        proof {
            assert(v@ =~= self@.subrange(0, self@.len() - 1));
        }
        Some(Discriminator(v))
    }

    /// The last element of the path: the id of the named node itself.
    /// The master root (empty path) has id 0.
    pub fn own_id(&self) -> (r: usize)
        ensures
            r == spec_own_id(self@),
    {
        if self.0.len() == 0 {
            0
        } else {
            self.0[self.0.len() - 1]
        }
    }

    /// The path of `self`'s child with id `id`.
    pub fn child(&self, id: usize) -> (r: Discriminator)
        ensures
            r@ == self@.push(id),
    {
        let mut v = self.0.clone();
        proof {
            assert forall|i: int| 0 <= i < self.0@.len() implies v@[i] == self.0@[i] by {
                assert(cloned::<usize>(self.0@[i], v@[i]));
            }
            assert(v@ =~= self.0@);
        }
        v.push(id);
        Discriminator(v)
    }

    /// When `self` is a proper prefix of `target`, the path of the immediate
    /// child of `self` on the way to `target`: `self` extended by one element.
    pub fn immediate_child(&self, target: &Discriminator) -> (r: Option<Discriminator>)
        ensures
            match r {
                Some(c) => {
                    &&& is_prefix_of(self@, target@)
                    &&& self@.len() < target@.len()
                    &&& c@ == self@.push(target@[self@.len() as int])
                },
                None => !(is_prefix_of(self@, target@) && self@.len() < target@.len()),
            },
    {
        if target.starts_with(self) && self.0.len() < target.0.len() {
            let c = self.child(target.0[self.0.len()]);
            Some(c)
        } else {
            None
        }
    }
}

/// The id of the node a path names: its last element, or 0 for the master.
pub open spec fn spec_own_id(d: Seq<usize>) -> usize {
    if d.len() == 0 {
        0
    } else {
        d.last()
    }
}

} // verus!
