//! Filesystem paths modelled as sequences of components.
//!
//! The path `/work/a` is the component vector `[b"work", b"a"]`; the
//! filesystem root is the empty vector. Working on components keeps the
//! ancestor relation and path equality exact, with no separator parsing.

use vstd::prelude::*;
use crate::bytes::bytes_eq;
use crate::bytes::copy_bytes;

verus! {

/// An absolute directory path: the sequence of its components.
pub struct DirPath {
    pub components: Vec<Vec<u8>>,
}

impl View for DirPath {
    type V = Seq<Seq<u8>>;

    open spec fn view(&self) -> Seq<Seq<u8>> {
        self.components@.map_values(|c: Vec<u8>| c@)
    }
}

/// `p` names an ancestor of `q`, or the same directory: `q` lies in the
/// subtree rooted at `p`.
pub open spec fn is_prefix_of(p: Seq<Seq<u8>>, q: Seq<Seq<u8>>) -> bool {
    p.len() <= q.len() && p == q.subrange(0, p.len() as int)
}

/// `p` names a proper ancestor of `q`: `q` lies strictly inside `p`'s subtree.
pub open spec fn is_strict_prefix_of(p: Seq<Seq<u8>>, q: Seq<Seq<u8>>) -> bool {
    is_prefix_of(p, q) && p.len() < q.len()
}

impl DirPath {
    /// Component-for-component copy.
    pub fn clone_path(&self) -> (r: DirPath)
        ensures
            r@ == self@,
    {
        let mut cs: Vec<Vec<u8>> = Vec::new();
        let mut i: usize = 0;
        while i < self.components.len()
            invariant
                i <= self.components@.len(),
                cs@.len() == i,
                forall|k: int| 0 <= k < i ==> cs@[k]@ == self.components@[k]@,
            decreases self.components@.len() - i,
        {
            cs.push(copy_bytes(&self.components[i]));
            i += 1;
        }
        let r = DirPath { components: cs };
        proof {
            assert(r@ =~= self@);
        }
        r
    }

    /// True when the two paths name the same directory.
    pub fn same_as(&self, other: &DirPath) -> (r: bool)
        ensures
            r == (self@ == other@),
    {
        if self.components.len() != other.components.len() {
            return false;
        }
        let mut i: usize = 0;
        while i < self.components.len()
            invariant
                i <= self.components@.len(),
                self.components@.len() == other.components@.len(),
                self@.len() == self.components@.len(),
                other@.len() == other.components@.len(),
                forall|k: int| 0 <= k < i ==> self@[k] == other@[k],
            decreases self.components@.len() - i,
        {
            if !bytes_eq(&self.components[i], &other.components[i]) {
                proof {
                    assert(self@[i as int] != other@[i as int]);
                }
                return false;
            }
            i += 1;
        }
        proof {
            assert(self@ =~= other@);
        }
        true
    }

    /// True when `self` lies in the subtree rooted at `prefix` (or is it).
    pub fn starts_with(&self, prefix: &DirPath) -> (r: bool)
        ensures
            r == is_prefix_of(prefix@, self@),
    {
        if prefix.components.len() > self.components.len() {
            return false;
        }
        let mut i: usize = 0;
        while i < prefix.components.len()
            invariant
                i <= prefix.components@.len(),
                prefix.components@.len() <= self.components@.len(),
                self@.len() == self.components@.len(),
                prefix@.len() == prefix.components@.len(),
                forall|k: int| 0 <= k < i ==> prefix@[k] == self@[k],
            decreases prefix.components@.len() - i,
        {
            if !bytes_eq(&prefix.components[i], &self.components[i]) {
                proof {
                    assert(self@.subrange(0, prefix@.len() as int)[i as int] == self@[i as int]);
                    assert(prefix@[i as int] != self@[i as int]);
                }
                return false;
            }
            i += 1;
        }
        proof {
            assert(prefix@ =~= self@.subrange(0, prefix@.len() as int));
        }
        true
    }

    /// The directory that holds `self`.
    pub fn parent(&self) -> (r: DirPath)
        requires
            self@.len() > 0,
        ensures
            r@ == self@.drop_last(),
    {
        let mut cs: Vec<Vec<u8>> = Vec::new();
        let mut i: usize = 0;
        while i < self.components.len() - 1
            invariant
                self.components@.len() > 0,
                i <= self.components@.len() - 1,
                cs@.len() == i,
                forall|k: int| 0 <= k < i ==> cs@[k]@ == self.components@[k]@,
            decreases self.components@.len() - 1 - i,
        {
            cs.push(copy_bytes(&self.components[i]));
            i += 1;
        }
        let r = DirPath { components: cs };
        proof {
            assert(r@ =~= self@.drop_last());
        }
        r
    }
}

} // verus!
