//! An unbalanced binary search tree storing values of a totally ordered
//! element type.
//!
//! A tree is modelled as the multiset of keys of its stored values
//! (`self@`); well-formedness (`wf`) keeps every left subtree strictly
//! below its node's key and every right subtree at or above it, so a
//! value inserted twice by `insert` sits in the right subtree of its
//! duplicate.

use vstd::prelude::*;

verus! {

use core::cmp::Ordering;
use vstd::multiset::Multiset;
use crate::order::TotalOrder;
use crate::order::below;

broadcast use vstd::multiset::group_multiset_axioms;

/// A node-owns-children binary search tree. The root of an empty tree is
/// the only node without a value.
#[derive(Debug)]
pub struct BinarySearchTree<T: TotalOrder> {
    value: Option<T>,
    left: Option<Box<BinarySearchTree<T>>>,
    right: Option<Box<BinarySearchTree<T>>>,
}

impl<T: TotalOrder> BinarySearchTree<T> {
    /// The multiset of keys held by this tree.
    pub closed spec fn mset(self) -> Multiset<T::Key>
        decreases self,
    {
        match self.value {
            None => Multiset::empty(),
            Some(v) => {
                let lm = match self.left {
                    Some(l) => l.mset(),
                    None => Multiset::empty(),
                };
                let rm = match self.right {
                    Some(r) => r.mset(),
                    None => Multiset::empty(),
                };
                lm.insert(v.key()).add(rm)
            },
        }
    }

    /// The stored values in ascending key order.
    pub closed spec fn to_seq(self) -> Seq<T>
        decreases self,
    {
        match self.value {
            None => Seq::empty(),
            Some(v) => {
                let ls = match self.left {
                    Some(l) => l.to_seq(),
                    None => Seq::empty(),
                };
                let rs = match self.right {
                    Some(r) => r.to_seq(),
                    None => Seq::empty(),
                };
                ls + seq![v] + rs
            },
        }
    }

    /// Well-formedness: an empty node has no children, keys in a left
    /// subtree lie strictly below the node's key, and keys in a right
    /// subtree lie at or above it.
    pub closed spec fn wf(self) -> bool
        decreases self,
    {
        match self.value {
            None => self.left is None && self.right is None,
            Some(v) => {
                &&& (match self.left {
                    Some(l) => l.wf() && l.value is Some && (forall|k: T::Key|
                        #[trigger] l.mset().count(k) > 0 ==> below::<T>(k, v.key())),
                    None => true,
                })
                &&& (match self.right {
                    Some(r) => r.wf() && r.value is Some && (forall|k: T::Key|
                        #[trigger] r.mset().count(k) > 0 ==> T::le(v.key(), k)),
                    None => true,
                })
            },
        }
    }

    /// Create a new, empty tree.
    pub fn new() -> (tree: BinarySearchTree<T>)
        ensures
            tree.wf(),
            tree@ == Multiset::<T::Key>::empty(),
    {
        BinarySearchTree { value: None, left: None, right: None }
    }

    /// Find a value in this tree: true exactly when a value with the same
    /// key is stored.
    pub fn search(&self, value: &T) -> (found: bool)
        requires
            self.wf(),
        ensures
            found == self@.contains(value.key()),
        decreases self,
    {
        match &self.value {
            Some(key) => {
                match key.compare(value) {
                    Ordering::Equal => true,
                    Ordering::Greater => {
                        proof {
                            if self@.contains(value.key()) {
                                if match &self.right {
                                    Some(r) => r.mset().count(value.key()) > 0,
                                    None => false,
                                } {
                                    T::le_antisymmetric(value.key(), key.key());
                                }
                            }
                        }
                        match &self.left {
                            Some(node) => node.search(value),
                            None => false,
                        }
                    },
                    Ordering::Less => {
                        proof {
                            if match &self.left {
                                Some(l) => l.mset().count(value.key()) > 0,
                                None => false,
                            } {
                                T::le_antisymmetric(key.key(), value.key());
                            }
                        }
                        match &self.right {
                            Some(node) => node.search(value),
                            None => false,
                        }
                    },
                }
            },
            None => false,
        }
    }

    /// Returns the largest stored value whose key is at or below the key
    /// of `value`, or nothing when no stored key qualifies.
    pub fn floor(&self, value: &T) -> (f: Option<&T>)
        requires
            self.wf(),
        ensures
            match f {
                Some(fv) => self@.contains(fv.key()) && T::le(fv.key(), value.key()) && (forall|
                    k: T::Key,
                |
                    #[trigger] self@.count(k) > 0 && T::le(k, value.key()) ==> T::le(k, fv.key())),
                None => forall|k: T::Key| #[trigger] self@.count(k) > 0 ==> !T::le(
                    k,
                    value.key(),
                ),
            },
        decreases self,
    {
        match &self.value {
            Some(key) => {
                match key.compare(value) {
                    Ordering::Greater => {
                        proof {
                            let kk = key.key();
                            let vk = value.key();
                            assert forall|k: T::Key|
                                #[trigger] self@.count(k) > 0 && T::le(k, vk) implies (match self
                                .left {
                                Some(l) => l.mset().count(k) > 0,
                                None => false,
                            }) by {
                                if k == kk {
                                    T::le_antisymmetric(kk, vk);
                                } else {
                                    match self.right {
                                        Some(r) => {
                                            if r.mset().count(k) > 0 {
                                                T::le_transitive(kk, k, vk);
                                                T::le_antisymmetric(kk, vk);
                                            }
                                        },
                                        None => {},
                                    }
                                }
                            }
                        }
                        let res = match &self.left {
                            Some(node) => node.floor(value),
                            None => None,
                        };
                        proof {
                            let vk = value.key();
                            match &self.left {
                                Some(l) => {
                                    let lt = **l;
                                    assert(lt@ == lt.mset());
                                },
                                None => {},
                            }
                            match res {
                                Some(fv) => {
                                    assert forall|k: T::Key|
                                        #[trigger] self@.count(k) > 0 && T::le(k, vk) implies T::le(
                                        k,
                                        fv.key(),
                                    ) by {
                                        match &self.left {
                                            Some(l) => {
                                                let lt = **l;
                                                assert(lt.mset().count(k) > 0);
                                                assert(lt@.count(k) > 0);
                                            },
                                            None => {},
                                        }
                                    }
                                },
                                None => {
                                    assert forall|k: T::Key| #[trigger] self@.count(k)
                                        > 0 implies !T::le(k, vk) by {
                                        if T::le(k, vk) {
                                            match &self.left {
                                                Some(l) => {
                                                    let lt = **l;
                                                    assert(lt.mset().count(k) > 0);
                                                    assert(lt@.count(k) > 0);
                                                },
                                                None => {},
                                            }
                                        }
                                    }
                                },
                            }
                        }
                        res
                    },
                    Ordering::Less => {
                        proof {
                            let kk = key.key();
                            assert(self@.count(kk) > 0);
                            T::le_total(kk, kk);
                        }
                        let res = match &self.right {
                            Some(node) => node.floor(value),
                            None => None,
                        };
                        match res {
                            Some(fv) => {
                                proof {
                                    let kk = key.key();
                                    let vk = value.key();
                                    match &self.right {
                                        Some(r) => {
                                            assert(r.mset().count(fv.key()) > 0);
                                        },
                                        None => {},
                                    }
                                    assert forall|k: T::Key|
                                        #[trigger] self@.count(k) > 0 && T::le(k, vk) implies T::le(
                                        k,
                                        fv.key(),
                                    ) by {
                                        match self.left {
                                            Some(l) => {
                                                if l.mset().count(k) > 0 {
                                                    T::le_transitive(k, kk, fv.key());
                                                }
                                            },
                                            None => {},
                                        }
                                        if k == kk {
                                        }
                                    }
                                }
                                res
                            },
                            None => {
                                proof {
                                    let kk = key.key();
                                    let vk = value.key();
                                    assert forall|k: T::Key|
                                        #[trigger] self@.count(k) > 0 && T::le(k, vk) implies T::le(
                                        k,
                                        kk,
                                    ) by {
                                        match &self.right {
                                            Some(r) => {
                                                let rt = **r;
                                                assert(rt@ == rt.mset());
                                                assert(rt.mset().count(k) > 0 ==> !T::le(k, vk));
                                            },
                                            None => {},
                                        }
                                        match &self.left {
                                            Some(l) => {
                                                let lt = **l;
                                                if lt.mset().count(k) > 0 {
                                                    assert(below::<T>(k, kk));
                                                }
                                            },
                                            None => {},
                                        }
                                    }
                                }
                                Some(key)
                            },
                        }
                    },
                    Ordering::Equal => {
                        proof {
                            let kk = key.key();
                            assert(self@.count(kk) > 0);
                            T::le_total(kk, kk);
                        }
                        Some(key)
                    },
                }
            },
            None => {
                proof {
                    assert(self@ =~= Multiset::<T::Key>::empty());
                }
                None
            },
        }
    }

    /// Returns the smallest stored value whose key is at or above the key
    /// of `value`, or nothing when no stored key qualifies.
    pub fn ceil(&self, value: &T) -> (c: Option<&T>)
        requires
            self.wf(),
        ensures
            match c {
                Some(cv) => self@.contains(cv.key()) && T::le(value.key(), cv.key()) && (forall|
                    k: T::Key,
                |
                    #[trigger] self@.count(k) > 0 && T::le(value.key(), k) ==> T::le(cv.key(), k)),
                None => forall|k: T::Key| #[trigger] self@.count(k) > 0 ==> !T::le(
                    value.key(),
                    k,
                ),
            },
        decreases self,
    {
        match &self.value {
            Some(key) => {
                match key.compare(value) {
                    Ordering::Less => {
                        proof {
                            let kk = key.key();
                            let vk = value.key();
                            assert forall|k: T::Key|
                                #[trigger] self@.count(k) > 0 && T::le(vk, k) implies (match self
                                .right {
                                Some(r) => r.mset().count(k) > 0,
                                None => false,
                            }) by {
                                if k == kk {
                                    T::le_antisymmetric(kk, vk);
                                } else {
                                    match self.left {
                                        Some(l) => {
                                            if l.mset().count(k) > 0 {
                                                T::le_transitive(vk, k, kk);
                                                T::le_antisymmetric(kk, vk);
                                            }
                                        },
                                        None => {},
                                    }
                                }
                            }
                        }
                        let res = match &self.right {
                            Some(node) => node.ceil(value),
                            None => None,
                        };
                        proof {
                            let vk = value.key();
                            match &self.right {
                                Some(r) => {
                                    let rt = **r;
                                    assert(rt@ == rt.mset());
                                },
                                None => {},
                            }
                            match res {
                                Some(cv) => {
                                    assert forall|k: T::Key|
                                        #[trigger] self@.count(k) > 0 && T::le(vk, k) implies T::le(
                                        cv.key(),
                                        k,
                                    ) by {
                                        match &self.right {
                                            Some(r) => {
                                                let rt = **r;
                                                assert(rt.mset().count(k) > 0);
                                                assert(rt@.count(k) > 0);
                                            },
                                            None => {},
                                        }
                                    }
                                },
                                None => {
                                    assert forall|k: T::Key| #[trigger] self@.count(k)
                                        > 0 implies !T::le(vk, k) by {
                                        if T::le(vk, k) {
                                            match &self.right {
                                                Some(r) => {
                                                    let rt = **r;
                                                    assert(rt.mset().count(k) > 0);
                                                    assert(rt@.count(k) > 0);
                                                },
                                                None => {},
                                            }
                                        }
                                    }
                                },
                            }
                        }
                        res
                    },
                    Ordering::Greater => {
                        proof {
                            let kk = key.key();
                            assert(self@.count(kk) > 0);
                            T::le_total(kk, kk);
                        }
                        let res = match &self.left {
                            Some(node) => node.ceil(value),
                            None => None,
                        };
                        match res {
                            Some(cv) => {
                                proof {
                                    let kk = key.key();
                                    let vk = value.key();
                                    match &self.left {
                                        Some(l) => {
                                            assert(l.mset().count(cv.key()) > 0);
                                        },
                                        None => {},
                                    }
                                    assert forall|k: T::Key|
                                        #[trigger] self@.count(k) > 0 && T::le(vk, k) implies T::le(
                                        cv.key(),
                                        k,
                                    ) by {
                                        match self.right {
                                            Some(r) => {
                                                if r.mset().count(k) > 0 {
                                                    T::le_transitive(cv.key(), kk, k);
                                                }
                                            },
                                            None => {},
                                        }
                                        if k == kk {
                                        }
                                    }
                                }
                                res
                            },
                            None => {
                                proof {
                                    let kk = key.key();
                                    let vk = value.key();
                                    assert forall|k: T::Key|
                                        #[trigger] self@.count(k) > 0 && T::le(vk, k) implies T::le(
                                        kk,
                                        k,
                                    ) by {
                                        match &self.left {
                                            Some(l) => {
                                                let lt = **l;
                                                assert(lt@ == lt.mset());
                                                assert(lt.mset().count(k) > 0 ==> !T::le(vk, k));
                                            },
                                            None => {},
                                        }
                                        match &self.right {
                                            Some(r) => {
                                                let rt = **r;
                                                if rt.mset().count(k) > 0 {
                                                    assert(T::le(kk, k));
                                                }
                                            },
                                            None => {},
                                        }
                                    }
                                }
                                Some(key)
                            },
                        }
                    },
                    Ordering::Equal => {
                        proof {
                            let kk = key.key();
                            assert(self@.count(kk) > 0);
                            T::le_total(kk, kk);
                        }
                        Some(key)
                    },
                }
            },
            None => {
                proof {
                    assert(self@ =~= Multiset::<T::Key>::empty());
                }
                None
            },
        }
    }

    /// A fresh leaf holding one value.
    spec fn leaf_of(value: T) -> BinarySearchTree<T> {
        BinarySearchTree { value: Some(value), left: None, right: None }
    }

    /// The tree that inserting the value leaves behind: exactly the tree
    /// `insert` produces, with an equal key routed into the right
    /// subtree.
    pub closed spec fn inserted(self, value: T) -> BinarySearchTree<T>
        decreases self,
    {
        match self.value {
            None => BinarySearchTree { value: Some(value), left: self.left, right: self.right },
            Some(v) => {
                if T::le(value.key(), v.key()) && value.key() != v.key() {
                    BinarySearchTree {
                        value: self.value,
                        left: Some(
                            Box::new(
                                match self.left {
                                    Some(l) => (*l).inserted(value),
                                    None => Self::leaf_of(value),
                                },
                            ),
                        ),
                        right: self.right,
                    }
                } else {
                    BinarySearchTree {
                        value: self.value,
                        left: self.left,
                        right: Some(
                            Box::new(
                                match self.right {
                                    Some(r) => (*r).inserted(value),
                                    None => Self::leaf_of(value),
                                },
                            ),
                        ),
                    }
                }
            },
        }
    }

    /// Recursive worker for `insert`; additionally reports that the tree
    /// is non-empty afterwards.
    fn insert_inner(&mut self, value: T)
        requires
            old(self).wf(),
        ensures
            final(self).wf(),
            final(self).value is Some,
            final(self)@ == old(self)@.insert(value.key()),
            final(self).to_seq().to_multiset() == old(self).to_seq().to_multiset().insert(value),
            *final(self) == old(self).inserted(value),
        decreases *old(self),
    {
        if self.value.is_none() {
            self.value = Some(value);
            proof {
                assert(self@ =~= old(self)@.insert(value.key()));
                broadcast use vstd::seq_lib::group_to_multiset_ensures;

                assert(old(self).to_seq() =~= Seq::<T>::empty());
                assert(old(self).to_seq().to_multiset() =~= Multiset::<T>::empty());
                lemma_value_mset_node(*self);
                assert(self.to_seq().to_multiset() =~= old(self).to_seq().to_multiset().insert(
                    value,
                ));
            }
            return;
        }
        let o = value.compare(self.value.as_ref().unwrap());
        proof {
            if self.value.unwrap().key() == value.key() {
                T::le_total(value.key(), value.key());
            }
        }
        match o {
            Ordering::Less => {
                let child = self.left.take();
                match child {
                    Some(mut node) => {
                        (&mut *node).insert_inner(value);
                        self.left = Some(node);
                    },
                    None => {
                        self.left = Some(
                            Box::new(BinarySearchTree { value: Some(value), left: None, right: None }),
                        );
                        proof {
                            let l = *self.left.unwrap();
                            assert(l.wf());
                            assert(l.mset() =~= Multiset::<T::Key>::empty().insert(value.key()));
                        }
                    },
                }
            },
            _ => {
                let child = self.right.take();
                match child {
                    Some(mut node) => {
                        (&mut *node).insert_inner(value);
                        self.right = Some(node);
                    },
                    None => {
                        self.right = Some(
                            Box::new(BinarySearchTree { value: Some(value), left: None, right: None }),
                        );
                        proof {
                            let r = *self.right.unwrap();
                            assert(r.wf());
                            assert(r.mset() =~= Multiset::<T::Key>::empty().insert(value.key()));
                        }
                    },
                }
            },
        }
        proof {
            assert(self@ =~= old(self)@.insert(value.key()));
            broadcast use vstd::seq_lib::group_to_multiset_ensures;

            lemma_value_mset_node(*old(self));
            lemma_value_mset_node(*self);
            match (&self.left, &old(self).left) {
                (Some(n), None) => {
                    lemma_value_mset_node(**n);
                    assert((**n).to_seq().to_multiset() =~= Multiset::<T>::empty().insert(value));
                },
                _ => {},
            }
            match (&self.right, &old(self).right) {
                (Some(n), None) => {
                    lemma_value_mset_node(**n);
                    assert((**n).to_seq().to_multiset() =~= Multiset::<T>::empty().insert(value));
                },
                _ => {},
            }
            assert(self.to_seq().to_multiset() =~= old(self).to_seq().to_multiset().insert(value));
            let vk = value.key();
            let kk = old(self).value.unwrap().key();
            match o {
                Ordering::Less => {
                    match (&self.left, &old(self).left) {
                        (Some(n), Some(l)) => {
                            assert(**n == (**l).inserted(value));
                            assert(*n == Box::new((**l).inserted(value)));
                        },
                        (Some(n), None) => {
                            assert(**n == Self::leaf_of(value));
                            assert(*n == Box::new(Self::leaf_of(value)));
                        },
                        _ => {
                            assert(false);
                        },
                    }
                    assert(old(self).inserted(value) == BinarySearchTree {
                        value: old(self).value,
                        left: Some(
                            Box::new(
                                match old(self).left {
                                    Some(l) => (*l).inserted(value),
                                    None => Self::leaf_of(value),
                                },
                            ),
                        ),
                        right: old(self).right,
                    });
                },
                _ => {
                    if T::le(vk, kk) && vk != kk {
                        T::le_antisymmetric(vk, kk);
                    }
                    match (&self.right, &old(self).right) {
                        (Some(n), Some(r)) => {
                            assert(**n == (**r).inserted(value));
                            assert(*n == Box::new((**r).inserted(value)));
                        },
                        (Some(n), None) => {
                            assert(**n == Self::leaf_of(value));
                            assert(*n == Box::new(Self::leaf_of(value)));
                        },
                        _ => {
                            assert(false);
                        },
                    }
                    assert(old(self).inserted(value) == BinarySearchTree {
                        value: old(self).value,
                        left: old(self).left,
                        right: Some(
                            Box::new(
                                match old(self).right {
                                    Some(r) => (*r).inserted(value),
                                    None => Self::leaf_of(value),
                                },
                            ),
                        ),
                    });
                },
            }
            assert(*self == old(self).inserted(value));
        }
    }

    /// Returns the smallest value in this tree, or nothing when it is empty.
    pub fn minimum(&self) -> (m: Option<&T>)
        requires
            self.wf(),
        ensures
            match m {
                Some(v) => self@.contains(v.key()) && (forall|k: T::Key|
                    #[trigger] self@.count(k) > 0 ==> T::le(v.key(), k)),
                None => self@ == Multiset::<T::Key>::empty(),
            },
        decreases self,
    {
        match &self.left {
            Some(node) => {
                let m = node.minimum();
                proof {
                    let kk = self.value.unwrap().key();
                    assert(node.mset().count(node.value.unwrap().key()) > 0);
                    let v = m.unwrap();
                    assert(node.mset().count(v.key()) > 0);
                    assert forall|k: T::Key| #[trigger] self@.count(k) > 0 implies T::le(
                        v.key(),
                        k,
                    ) by {
                        if node.mset().count(k) > 0 {
                        } else if k == kk {
                        } else {
                            match self.right {
                                Some(r) => {
                                    assert(r.mset().count(k) > 0);
                                    T::le_transitive(v.key(), kk, k);
                                },
                                None => {},
                            }
                        }
                    }
                }
                m
            },
            None => {
                proof {
                    if self.value is Some {
                        let kk = self.value.unwrap().key();
                        T::le_total(kk, kk);
                        assert forall|k: T::Key| #[trigger] self@.count(k) > 0 implies T::le(
                            kk,
                            k,
                        ) by {
                            if k != kk {
                                match self.right {
                                    Some(r) => {
                                        assert(r.mset().count(k) > 0);
                                    },
                                    None => {},
                                }
                            }
                        }
                    } else {
                        assert(self@ =~= Multiset::<T::Key>::empty());
                    }
                }
                self.value.as_ref()
            },
        }
    }

    /// Returns the largest value in this tree, or nothing when it is empty.
    pub fn maximum(&self) -> (m: Option<&T>)
        requires
            self.wf(),
        ensures
            match m {
                Some(v) => self@.contains(v.key()) && (forall|k: T::Key|
                    #[trigger] self@.count(k) > 0 ==> T::le(k, v.key())),
                None => self@ == Multiset::<T::Key>::empty(),
            },
        decreases self,
    {
        match &self.right {
            Some(node) => {
                let m = node.maximum();
                proof {
                    let kk = self.value.unwrap().key();
                    assert(node.mset().count(node.value.unwrap().key()) > 0);
                    let v = m.unwrap();
                    assert(node.mset().count(v.key()) > 0);
                    assert forall|k: T::Key| #[trigger] self@.count(k) > 0 implies T::le(
                        k,
                        v.key(),
                    ) by {
                        if node.mset().count(k) > 0 {
                        } else if k == kk {
                        } else {
                            match self.left {
                                Some(l) => {
                                    assert(l.mset().count(k) > 0);
                                    T::le_transitive(k, kk, v.key());
                                },
                                None => {},
                            }
                        }
                    }
                }
                m
            },
            None => {
                proof {
                    if self.value is Some {
                        let kk = self.value.unwrap().key();
                        T::le_total(kk, kk);
                        assert forall|k: T::Key| #[trigger] self@.count(k) > 0 implies T::le(
                            k,
                            kk,
                        ) by {
                            if k != kk {
                                match self.left {
                                    Some(l) => {
                                        assert(l.mset().count(k) > 0);
                                    },
                                    None => {},
                                }
                            }
                        }
                    } else {
                        assert(self@ =~= Multiset::<T::Key>::empty());
                    }
                }
                self.value.as_ref()
            },
        }
    }

    /// Returns the stored value that follows `value` in ascending key
    /// order, whether or not `value` itself is stored. When a stored key
    /// equal to the key of `value` has duplicates, the duplicate itself is
    /// the answer; with no duplicate keys the answer is the least stored
    /// key strictly above the key of `value`.
    pub fn inorder_successor(&self, value: &T) -> (s: Option<&T>)
        requires
            self.wf(),
        ensures
            match s {
                Some(sv) => self@.contains(sv.key()) && T::le(value.key(), sv.key()) && (forall|
                    k: T::Key,
                |
                    #[trigger] self@.count(k) > 0 && below::<T>(value.key(), k) ==> T::le(
                        sv.key(),
                        k,
                    )),
                None => forall|k: T::Key| #[trigger] self@.count(k) > 0 ==> T::le(k, value.key()),
            },
            ((forall|k: T::Key| #[trigger] self@.count(k) <= 1) && s is Some) ==> below::<T>(
                value.key(),
                s.unwrap().key(),
            ),
        decreases self,
    {
        match &self.value {
            Some(key) => {
                match key.compare(value) {
                    Ordering::Equal => {
                        let res = match &self.right {
                            Some(node) => node.minimum(),
                            None => None,
                        };
                        proof {
                            let kk = key.key();
                            let vk = value.key();
                            match &self.right {
                                Some(r) => {
                                    let rt = **r;
                                    assert(rt@ == rt.mset());
                                    assert(rt.mset().count(rt.value.unwrap().key()) > 0);
                                    let sv = res.unwrap();
                                    assert(rt.mset().count(sv.key()) > 0);
                                    assert forall|k: T::Key|
                                        #[trigger] self@.count(k) > 0 && below::<T>(
                                        vk,
                                        k,
                                    ) implies T::le(sv.key(), k) by {
                                        match &self.left {
                                            Some(l) => {
                                                if l.mset().count(k) > 0 {
                                                    T::le_antisymmetric(k, vk);
                                                }
                                            },
                                            None => {},
                                        }
                                    }
                                    if forall|k: T::Key| #[trigger] self@.count(k) <= 1 {
                                        assert(self@.count(vk) <= 1);
                                        if sv.key() == vk {
                                            assert(self@.count(vk) >= 2);
                                        }
                                    }
                                },
                                None => {
                                    assert forall|k: T::Key| #[trigger] self@.count(k)
                                        > 0 implies T::le(k, vk) by {
                                        T::le_total(kk, kk);
                                        match &self.left {
                                            Some(l) => {
                                                if l.mset().count(k) > 0 {
                                                }
                                            },
                                            None => {},
                                        }
                                    }
                                },
                            }
                        }
                        res
                    },
                    Ordering::Greater => {
                        proof {
                            let vk = value.key();
                            if forall|k: T::Key| #[trigger] self@.count(k) <= 1 {
                                match &self.left {
                                    Some(l) => {
                                        assert forall|k: T::Key| #[trigger] l.mset().count(k)
                                            <= 1 by {
                                            assert(self@.count(k) <= 1);
                                        }
                                        let lt = **l;
                                        assert(forall|k: T::Key| #[trigger] lt@.count(k) <= 1);
                                    },
                                    None => {},
                                }
                            }
                        }
                        let res = match &self.left {
                            Some(node) => node.inorder_successor(value),
                            None => None,
                        };
                        match res {
                            Some(sv) => {
                                proof {
                                    let kk = key.key();
                                    let vk = value.key();
                                    match &self.left {
                                        Some(l) => {
                                            let lt = **l;
                                            assert(lt@ == lt.mset());
                                            assert(lt.mset().count(sv.key()) > 0);
                                        },
                                        None => {},
                                    }
                                    assert forall|k: T::Key|
                                        #[trigger] self@.count(k) > 0 && below::<T>(
                                        vk,
                                        k,
                                    ) implies T::le(sv.key(), k) by {
                                        match &self.right {
                                            Some(r) => {
                                                if r.mset().count(k) > 0 {
                                                    T::le_transitive(sv.key(), kk, k);
                                                }
                                            },
                                            None => {},
                                        }
                                        if k == kk {
                                        }
                                    }
                                }
                                res
                            },
                            None => {
                                proof {
                                    let kk = key.key();
                                    let vk = value.key();
                                    assert(self@.count(kk) > 0);
                                    T::le_total(kk, kk);
                                    assert forall|k: T::Key|
                                        #[trigger] self@.count(k) > 0 && below::<T>(
                                        vk,
                                        k,
                                    ) implies T::le(kk, k) by {
                                        match &self.left {
                                            Some(l) => {
                                                let lt = **l;
                                                assert(lt@ == lt.mset());
                                                if lt.mset().count(k) > 0 {
                                                    T::le_antisymmetric(k, vk);
                                                }
                                            },
                                            None => {},
                                        }
                                        match &self.right {
                                            Some(r) => {
                                                if r.mset().count(k) > 0 {
                                                }
                                            },
                                            None => {},
                                        }
                                    }
                                }
                                Some(key)
                            },
                        }
                    },
                    Ordering::Less => {
                        proof {
                            let vk = value.key();
                            if forall|k: T::Key| #[trigger] self@.count(k) <= 1 {
                                match &self.right {
                                    Some(r) => {
                                        assert forall|k: T::Key| #[trigger] r.mset().count(k)
                                            <= 1 by {
                                            assert(self@.count(k) <= 1);
                                        }
                                        let rt = **r;
                                        assert(forall|k: T::Key| #[trigger] rt@.count(k) <= 1);
                                    },
                                    None => {},
                                }
                            }
                        }
                        let res = match &self.right {
                            Some(node) => node.inorder_successor(value),
                            None => None,
                        };
                        proof {
                            let kk = key.key();
                            let vk = value.key();
                            match &self.right {
                                Some(r) => {
                                    let rt = **r;
                                    assert(rt@ == rt.mset());
                                },
                                None => {},
                            }
                            match res {
                                Some(sv) => {
                                    match &self.right {
                                        Some(r) => {
                                            assert(r.mset().count(sv.key()) > 0);
                                        },
                                        None => {},
                                    }
                                    assert forall|k: T::Key|
                                        #[trigger] self@.count(k) > 0 && below::<T>(
                                        vk,
                                        k,
                                    ) implies T::le(sv.key(), k) by {
                                        if k == kk {
                                            T::le_antisymmetric(kk, vk);
                                        }
                                        match &self.left {
                                            Some(l) => {
                                                if l.mset().count(k) > 0 {
                                                    T::le_transitive(vk, k, kk);
                                                    T::le_antisymmetric(kk, vk);
                                                }
                                            },
                                            None => {},
                                        }
                                    }
                                },
                                None => {
                                    assert forall|k: T::Key| #[trigger] self@.count(k)
                                        > 0 implies T::le(k, vk) by {
                                        match &self.left {
                                            Some(l) => {
                                                if l.mset().count(k) > 0 {
                                                    T::le_transitive(k, kk, vk);
                                                }
                                            },
                                            None => {},
                                        }
                                    }
                                },
                            }
                        }
                        res
                    },
                }
            },
            None => {
                proof {
                    assert(self@ =~= Multiset::<T::Key>::empty());
                }
                None
            },
        }
    }

    /// Returns the stored value that precedes `value` in ascending key
    /// order, whether or not `value` itself is stored; the mirror image of
    /// `inorder_successor`.
    pub fn inorder_predecessor(&self, value: &T) -> (p: Option<&T>)
        requires
            self.wf(),
        ensures
            match p {
                Some(pv) => self@.contains(pv.key()) && T::le(pv.key(), value.key()) && (forall|
                    k: T::Key,
                |
                    #[trigger] self@.count(k) > 0 && below::<T>(k, value.key()) ==> T::le(
                        k,
                        pv.key(),
                    )),
                None => forall|k: T::Key| #[trigger] self@.count(k) > 0 ==> T::le(value.key(), k),
            },
            ((forall|k: T::Key| #[trigger] self@.count(k) <= 1) && p is Some) ==> below::<T>(
                p.unwrap().key(),
                value.key(),
            ),
        decreases self,
    {
        match &self.value {
            Some(key) => {
                match key.compare(value) {
                    Ordering::Equal => {
                        let res = match &self.left {
                            Some(node) => node.maximum(),
                            None => None,
                        };
                        proof {
                            let kk = key.key();
                            let vk = value.key();
                            match &self.left {
                                Some(l) => {
                                    let lt = **l;
                                    assert(lt@ == lt.mset());
                                    assert(lt.mset().count(lt.value.unwrap().key()) > 0);
                                    let pv = res.unwrap();
                                    assert(lt.mset().count(pv.key()) > 0);
                                    assert forall|k: T::Key|
                                        #[trigger] self@.count(k) > 0 && below::<T>(
                                        k,
                                        vk,
                                    ) implies T::le(k, pv.key()) by {
                                        match &self.right {
                                            Some(r) => {
                                                if r.mset().count(k) > 0 {
                                                    T::le_antisymmetric(vk, k);
                                                }
                                            },
                                            None => {},
                                        }
                                    }
                                    if forall|k: T::Key| #[trigger] self@.count(k) <= 1 {
                                        assert(self@.count(vk) <= 1);
                                        if pv.key() == vk {
                                            assert(self@.count(vk) >= 2);
                                        }
                                    }
                                },
                                None => {
                                    assert forall|k: T::Key| #[trigger] self@.count(k)
                                        > 0 implies T::le(vk, k) by {
                                        T::le_total(kk, kk);
                                        match &self.right {
                                            Some(r) => {
                                                if r.mset().count(k) > 0 {
                                                }
                                            },
                                            None => {},
                                        }
                                    }
                                },
                            }
                        }
                        res
                    },
                    Ordering::Less => {
                        proof {
                            let vk = value.key();
                            if forall|k: T::Key| #[trigger] self@.count(k) <= 1 {
                                match &self.right {
                                    Some(r) => {
                                        assert forall|k: T::Key| #[trigger] r.mset().count(k)
                                            <= 1 by {
                                            assert(self@.count(k) <= 1);
                                        }
                                        let rt = **r;
                                        assert(forall|k: T::Key| #[trigger] rt@.count(k) <= 1);
                                    },
                                    None => {},
                                }
                            }
                        }
                        let res = match &self.right {
                            Some(node) => node.inorder_predecessor(value),
                            None => None,
                        };
                        match res {
                            Some(pv) => {
                                proof {
                                    let kk = key.key();
                                    let vk = value.key();
                                    match &self.right {
                                        Some(r) => {
                                            let rt = **r;
                                            assert(rt@ == rt.mset());
                                            assert(rt.mset().count(pv.key()) > 0);
                                        },
                                        None => {},
                                    }
                                    assert forall|k: T::Key|
                                        #[trigger] self@.count(k) > 0 && below::<T>(
                                        k,
                                        vk,
                                    ) implies T::le(k, pv.key()) by {
                                        match &self.left {
                                            Some(l) => {
                                                if l.mset().count(k) > 0 {
                                                    T::le_transitive(k, kk, pv.key());
                                                }
                                            },
                                            None => {},
                                        }
                                        if k == kk {
                                        }
                                    }
                                }
                                res
                            },
                            None => {
                                proof {
                                    let kk = key.key();
                                    let vk = value.key();
                                    assert(self@.count(kk) > 0);
                                    T::le_total(kk, kk);
                                    assert forall|k: T::Key|
                                        #[trigger] self@.count(k) > 0 && below::<T>(
                                        k,
                                        vk,
                                    ) implies T::le(k, kk) by {
                                        match &self.right {
                                            Some(r) => {
                                                let rt = **r;
                                                assert(rt@ == rt.mset());
                                                if rt.mset().count(k) > 0 {
                                                    T::le_antisymmetric(vk, k);
                                                }
                                            },
                                            None => {},
                                        }
                                        match &self.left {
                                            Some(l) => {
                                                if l.mset().count(k) > 0 {
                                                }
                                            },
                                            None => {},
                                        }
                                    }
                                }
                                Some(key)
                            },
                        }
                    },
                    Ordering::Greater => {
                        proof {
                            let vk = value.key();
                            if forall|k: T::Key| #[trigger] self@.count(k) <= 1 {
                                match &self.left {
                                    Some(l) => {
                                        assert forall|k: T::Key| #[trigger] l.mset().count(k)
                                            <= 1 by {
                                            assert(self@.count(k) <= 1);
                                        }
                                        let lt = **l;
                                        assert(forall|k: T::Key| #[trigger] lt@.count(k) <= 1);
                                    },
                                    None => {},
                                }
                            }
                        }
                        let res = match &self.left {
                            Some(node) => node.inorder_predecessor(value),
                            None => None,
                        };
                        proof {
                            let kk = key.key();
                            let vk = value.key();
                            match &self.left {
                                Some(l) => {
                                    let lt = **l;
                                    assert(lt@ == lt.mset());
                                },
                                None => {},
                            }
                            match res {
                                Some(pv) => {
                                    match &self.left {
                                        Some(l) => {
                                            assert(l.mset().count(pv.key()) > 0);
                                        },
                                        None => {},
                                    }
                                    assert forall|k: T::Key|
                                        #[trigger] self@.count(k) > 0 && below::<T>(
                                        k,
                                        vk,
                                    ) implies T::le(k, pv.key()) by {
                                        if k == kk {
                                            T::le_antisymmetric(kk, vk);
                                        }
                                        match &self.right {
                                            Some(r) => {
                                                if r.mset().count(k) > 0 {
                                                    T::le_transitive(kk, k, vk);
                                                    T::le_antisymmetric(kk, vk);
                                                }
                                            },
                                            None => {},
                                        }
                                    }
                                },
                                None => {
                                    assert forall|k: T::Key| #[trigger] self@.count(k)
                                        > 0 implies T::le(vk, k) by {
                                        match &self.right {
                                            Some(r) => {
                                                if r.mset().count(k) > 0 {
                                                    T::le_transitive(vk, kk, k);
                                                }
                                            },
                                            None => {},
                                        }
                                    }
                                },
                            }
                        }
                        res
                    },
                }
            },
            None => {
                proof {
                    assert(self@ =~= Multiset::<T::Key>::empty());
                }
                None
            },
        }
    }

    /// The smallest-keyed value of a non-empty subtree, paired with the
    /// subtree that removing it leaves behind.
    spec fn spec_take_min(t: BinarySearchTree<T>) -> (T, Option<Box<BinarySearchTree<T>>>)
        decreases t,
    {
        match t.left {
            None => (t.value.unwrap(), t.right),
            Some(l) => {
                let p = Self::spec_take_min(*l);
                (
                    p.0,
                    Some(
                        Box::new(
                            BinarySearchTree { value: t.value, left: p.1, right: t.right },
                        ),
                    ),
                )
            },
        }
    }

    /// The subtree that removing one value with the given key leaves
    /// behind; identical in shape to what `delete` computes.
    spec fn spec_delete_opt(
        node: Option<Box<BinarySearchTree<T>>>,
        k: T::Key,
    ) -> Option<Box<BinarySearchTree<T>>>
        decreases node,
    {
        match node {
            None => None,
            Some(b) => {
                let t = *b;
                let kk = t.value.unwrap().key();
                if kk == k {
                    if t.left is None && t.right is None {
                        None
                    } else if t.left is None {
                        t.right
                    } else if t.right is None {
                        t.left
                    } else {
                        let p = Self::spec_take_min(*t.right.unwrap());
                        Some(
                            Box::new(
                                BinarySearchTree { value: Some(p.0), left: t.left, right: p.1 },
                            ),
                        )
                    }
                } else if T::le(k, kk) {
                    Some(
                        Box::new(
                            BinarySearchTree {
                                value: t.value,
                                left: Self::spec_delete_opt(t.left, k),
                                right: t.right,
                            },
                        ),
                    )
                } else {
                    Some(
                        Box::new(
                            BinarySearchTree {
                                value: t.value,
                                left: t.left,
                                right: Self::spec_delete_opt(t.right, k),
                            },
                        ),
                    )
                }
            },
        }
    }

    /// The tree that removing one value with the given key leaves
    /// behind: exactly the tree `delete` and `delete_node` produce.
    pub closed spec fn deleted(self, k: T::Key) -> BinarySearchTree<T> {
        match self.value {
            None => self,
            Some(v) => {
                let kk = v.key();
                if kk == k {
                    if self.left is None && self.right is None {
                        BinarySearchTree { value: None, left: None, right: None }
                    } else if self.left is None {
                        *self.right.unwrap()
                    } else if self.right is None {
                        *self.left.unwrap()
                    } else {
                        let p = Self::spec_take_min(*self.right.unwrap());
                        BinarySearchTree { value: Some(p.0), left: self.left, right: p.1 }
                    }
                } else if T::le(k, kk) {
                    BinarySearchTree {
                        value: self.value,
                        left: Self::spec_delete_opt(self.left, k),
                        right: self.right,
                    }
                } else {
                    BinarySearchTree {
                        value: self.value,
                        left: self.left,
                        right: Self::spec_delete_opt(self.right, k),
                    }
                }
            },
        }
    }

    /// Remove and return the value with the smallest key of a non-empty
    /// subtree, splicing its right child into its place.
    fn take_min(node: &mut Option<Box<BinarySearchTree<T>>>) -> (m: T)
        requires
            *old(node) is Some,
            old(node).unwrap().wf(),
            old(node).unwrap().value is Some,
        ensures
            old(node).unwrap().mset().contains(m.key()),
            forall|k: T::Key| #[trigger] old(node).unwrap().mset().count(k) > 0 ==> T::le(
                m.key(),
                k,
            ),
            (match *final(node) {
                Some(n) => n.wf() && n.value is Some && n.mset() == old(
                    node,
                ).unwrap().mset().remove(m.key()),
                None => old(node).unwrap().mset() == Multiset::empty().insert(m.key()),
            }),
            old(node).unwrap().to_seq().to_multiset().contains(m),
            (match *final(node) {
                Some(n) => n.to_seq().to_multiset(),
                None => Multiset::<T>::empty(),
            }) == old(node).unwrap().to_seq().to_multiset().remove(m),
            m == Self::spec_take_min(*old(node).unwrap()).0,
            *final(node) == Self::spec_take_min(*old(node).unwrap()).1,
        decreases *old(node),
    {
        let mut boxed = node.take().unwrap();
        if boxed.left.is_none() {
            let BinarySearchTree { value, left: _, right } = *boxed;
            *node = right;
            proof {
                let t = *old(node).unwrap();
                let kk = value.unwrap().key();
                T::le_total(kk, kk);
                assert(t.mset().count(kk) > 0);
                lemma_value_mset_node(t);
                match t.right {
                    Some(r) => {
                        assert(r.mset() =~= t.mset().remove(kk));
                        assert(r.to_seq().to_multiset() =~= t.to_seq().to_multiset().remove(
                            t.value.unwrap(),
                        ));
                    },
                    None => {
                        assert(t.mset() =~= Multiset::empty().insert(kk));
                        assert(Multiset::<T>::empty() =~= t.to_seq().to_multiset().remove(
                            t.value.unwrap(),
                        ));
                    },
                }
                assert(Self::spec_take_min(t) == (t.value.unwrap(), t.right));
            }
            value.unwrap()
        } else {
            let m = Self::take_min(&mut boxed.left);
            proof {
                let t = *old(node).unwrap();
                let kk = boxed.value.unwrap().key();
                let oldleft = t.left.unwrap().mset();
                assert(oldleft.count(m.key()) > 0);
                assert(below::<T>(m.key(), kk));
                assert forall|k: T::Key| #[trigger] t.mset().count(k) > 0 implies T::le(
                    m.key(),
                    k,
                ) by {
                    if oldleft.count(k) > 0 {
                    } else if k == kk {
                    } else {
                        match &t.right {
                            Some(r) => {
                                if r.mset().count(k) > 0 {
                                    T::le_transitive(m.key(), kk, k);
                                }
                            },
                            None => {},
                        }
                    }
                }
                match &boxed.left {
                    Some(n) => {
                        assert(n.mset() == oldleft.remove(m.key()));
                        assert forall|k: T::Key| #[trigger] n.mset().count(k) > 0 implies below::<
                            T,
                        >(k, kk) by {
                            assert(oldleft.count(k) > 0);
                        }
                    },
                    None => {},
                }
                assert(boxed.mset() =~= t.mset().remove(m.key()));
                lemma_value_mset_node(t);
                lemma_value_mset_node(*boxed);
                assert(t.left.unwrap().to_seq().to_multiset().count(m) > 0);
                assert(boxed.to_seq().to_multiset() =~= t.to_seq().to_multiset().remove(m));
                let inner = Self::spec_take_min(*t.left.unwrap());
                assert(m == inner.0);
                assert(boxed.left == inner.1);
                let p = Self::spec_take_min(t);
                assert(p.0 == inner.0);
                assert(p.1 == Some(
                    Box::new(BinarySearchTree { value: t.value, left: inner.1, right: t.right }),
                ));
                assert(*boxed == BinarySearchTree { value: t.value, left: inner.1, right: t.right });
                assert(boxed == Box::new(
                    BinarySearchTree { value: t.value, left: inner.1, right: t.right },
                ));
            }
            *node = Some(boxed);
            m
        }
    }

    /// Recursive worker for `delete` on an optional subtree; removes the
    /// subtree entirely when its last value goes.
    fn delete_opt(node: &mut Option<Box<BinarySearchTree<T>>>, value: &T)
        requires
            (match *old(node) {
                Some(n) => n.wf() && n.value is Some,
                None => true,
            }),
        ensures
            (match *final(node) {
                Some(n) => n.wf() && n.value is Some,
                None => true,
            }),
            (match *final(node) {
                Some(n) => n.mset(),
                None => Multiset::<T::Key>::empty(),
            }) == (match *old(node) {
                Some(n) => if n.mset().contains(value.key()) {
                    n.mset().remove(value.key())
                } else {
                    n.mset()
                },
                None => Multiset::<T::Key>::empty(),
            }),
            (match *old(node) {
                Some(n) => !n.mset().contains(value.key()),
                None => true,
            }) ==> *final(node) == *old(node),
            (match *old(node) {
                Some(n) => n.mset().contains(value.key()) ==> removes_value_with_key::<T>(
                    n.to_seq().to_multiset(),
                    (match *final(node) {
                        Some(f) => f.to_seq().to_multiset(),
                        None => Multiset::<T>::empty(),
                    }),
                    value.key(),
                ),
                None => true,
            }),
            *final(node) == Self::spec_delete_opt(*old(node), value.key()),
        decreases *old(node),
    {
        let boxed_opt = node.take();
        match boxed_opt {
            None => {},
            Some(mut boxed) => {
                let o = boxed.value.as_ref().unwrap().compare(value);
                match o {
                    Ordering::Greater => {
                        proof {
                            let t = *old(node).unwrap();
                            let kk = t.value.unwrap().key();
                            let vk = value.key();
                            match &t.right {
                                Some(r) => {
                                    if r.mset().count(vk) > 0 {
                                        T::le_antisymmetric(vk, kk);
                                    }
                                },
                                None => {},
                            }
                        }
                        Self::delete_opt(&mut boxed.left, value);
                        proof {
                            let t = *old(node).unwrap();
                            let kk = t.value.unwrap().key();
                            let vk = value.key();
                            match (&boxed.left, &t.left) {
                                (Some(n), Some(l)) => {
                                    assert forall|k: T::Key| #[trigger] n.mset().count(k)
                                        > 0 implies below::<T>(k, kk) by {
                                        assert(l.mset().count(k) > 0);
                                    }
                                },
                                _ => {},
                            }
                            assert(boxed.wf());
                            if t.mset().contains(vk) {
                                assert(boxed.mset() =~= t.mset().remove(vk));
                                lemma_value_mset_node(t);
                                lemma_value_mset_node(*boxed);
                                match (&boxed.left, &t.left) {
                                    (Some(f), Some(l)) => {
                                        assert(l.mset().count(vk) > 0);
                                        let cb = (**l).to_seq().to_multiset();
                                        let ca = (**f).to_seq().to_multiset();
                                        let w = choose|w: T|
                                            cb.count(w) > 0 && w.key() == vk && ca == cb.remove(w);
                                        assert(t.to_seq().to_multiset().count(w) > 0);
                                        assert((*boxed).to_seq().to_multiset() =~= t.to_seq()
                                            .to_multiset().remove(w));
                                    },
                                    (None, Some(l)) => {
                                        assert(l.mset().count(vk) > 0);
                                        let cb = (**l).to_seq().to_multiset();
                                        let ca = Multiset::<T>::empty();
                                        let w = choose|w: T|
                                            cb.count(w) > 0 && w.key() == vk && ca == cb.remove(w);
                                        assert(t.to_seq().to_multiset().count(w) > 0);
                                        assert((*boxed).to_seq().to_multiset() =~= t.to_seq()
                                            .to_multiset().remove(w));
                                    },
                                    _ => {
                                        assert(false);
                                    },
                                }
                            } else {
                                assert(boxed.mset() =~= t.mset());
                                match &t.left {
                                    Some(l) => {
                                        assert(l.mset().count(vk) == 0);
                                    },
                                    None => {},
                                }
                                assert(boxed.left == t.left);
                                assert(boxed == t);
                            }
                            let kk = t.value.unwrap().key();
                            assert(kk != vk);
                            assert(T::le(vk, kk));
                            assert(Self::spec_delete_opt(*old(node), vk) == Some(
                                Box::new(
                                    BinarySearchTree {
                                        value: t.value,
                                        left: Self::spec_delete_opt(t.left, vk),
                                        right: t.right,
                                    },
                                ),
                            ));
                            assert(boxed.left == Self::spec_delete_opt(t.left, vk));
                            assert(boxed == Box::new(
                                BinarySearchTree { value: t.value, left: boxed.left, right: t.right },
                            ));
                        }
                        *node = Some(boxed);
                    },
                    Ordering::Less => {
                        proof {
                            let t = *old(node).unwrap();
                            let kk = t.value.unwrap().key();
                            let vk = value.key();
                            match &t.left {
                                Some(l) => {
                                    if l.mset().count(vk) > 0 {
                                        T::le_antisymmetric(kk, vk);
                                    }
                                },
                                None => {},
                            }
                        }
                        Self::delete_opt(&mut boxed.right, value);
                        proof {
                            let t = *old(node).unwrap();
                            let kk = t.value.unwrap().key();
                            let vk = value.key();
                            match (&boxed.right, &t.right) {
                                (Some(n), Some(r)) => {
                                    assert forall|k: T::Key| #[trigger] n.mset().count(k)
                                        > 0 implies T::le(kk, k) by {
                                        assert(r.mset().count(k) > 0);
                                    }
                                },
                                _ => {},
                            }
                            assert(boxed.wf());
                            if t.mset().contains(vk) {
                                assert(boxed.mset() =~= t.mset().remove(vk));
                                lemma_value_mset_node(t);
                                lemma_value_mset_node(*boxed);
                                match (&boxed.right, &t.right) {
                                    (Some(f), Some(r)) => {
                                        assert(r.mset().count(vk) > 0);
                                        let cb = (**r).to_seq().to_multiset();
                                        let ca = (**f).to_seq().to_multiset();
                                        let w = choose|w: T|
                                            cb.count(w) > 0 && w.key() == vk && ca == cb.remove(w);
                                        assert(t.to_seq().to_multiset().count(w) > 0);
                                        assert((*boxed).to_seq().to_multiset() =~= t.to_seq()
                                            .to_multiset().remove(w));
                                    },
                                    (None, Some(r)) => {
                                        assert(r.mset().count(vk) > 0);
                                        let cb = (**r).to_seq().to_multiset();
                                        let ca = Multiset::<T>::empty();
                                        let w = choose|w: T|
                                            cb.count(w) > 0 && w.key() == vk && ca == cb.remove(w);
                                        assert(t.to_seq().to_multiset().count(w) > 0);
                                        assert((*boxed).to_seq().to_multiset() =~= t.to_seq()
                                            .to_multiset().remove(w));
                                    },
                                    _ => {
                                        assert(false);
                                    },
                                }
                            } else {
                                assert(boxed.mset() =~= t.mset());
                                match &t.right {
                                    Some(r) => {
                                        assert(r.mset().count(vk) == 0);
                                    },
                                    None => {},
                                }
                                assert(boxed.right == t.right);
                                assert(boxed == t);
                            }
                            let kk = t.value.unwrap().key();
                            assert(kk != vk);
                            if T::le(vk, kk) {
                                T::le_antisymmetric(vk, kk);
                            }
                            assert(Self::spec_delete_opt(*old(node), vk) == Some(
                                Box::new(
                                    BinarySearchTree {
                                        value: t.value,
                                        left: t.left,
                                        right: Self::spec_delete_opt(t.right, vk),
                                    },
                                ),
                            ));
                            assert(boxed.right == Self::spec_delete_opt(t.right, vk));
                            assert(boxed == Box::new(
                                BinarySearchTree { value: t.value, left: t.left, right: boxed.right },
                            ));
                        }
                        *node = Some(boxed);
                    },
                    Ordering::Equal => {
                        proof {
                            let t = *old(node).unwrap();
                            assert(t.mset().count(t.value.unwrap().key()) > 0);
                        }
                        if boxed.left.is_none() && boxed.right.is_none() {
                            *node = None;
                            proof {
                                broadcast use vstd::seq_lib::group_to_multiset_ensures;

                                let t = *old(node).unwrap();
                                assert(t.mset() =~= Multiset::empty().insert(
                                    t.value.unwrap().key(),
                                ));
                                assert(t.mset().remove(value.key()) =~= Multiset::empty());
                                lemma_value_mset_node(t);
                                assert(t.to_seq().to_multiset().count(t.value.unwrap()) > 0);
                                assert(Multiset::<T>::empty() =~= t.to_seq().to_multiset().remove(
                                    t.value.unwrap(),
                                ));
                            }
                        } else if boxed.left.is_none() {
                            let BinarySearchTree { value: _, left: _, right } = *boxed;
                            proof {
                                let t = *old(node).unwrap();
                                let kk = t.value.unwrap().key();
                                lemma_value_mset_node(t);
                                assert(t.to_seq().to_multiset().count(t.value.unwrap()) > 0);
                                match &right {
                                    Some(n) => {
                                        assert(n.mset() =~= t.mset().remove(kk));
                                        assert((**n).to_seq().to_multiset() =~= t.to_seq()
                                            .to_multiset().remove(t.value.unwrap()));
                                    },
                                    None => {},
                                }
                            }
                            *node = right;
                        } else if boxed.right.is_none() {
                            let BinarySearchTree { value: _, left, right: _ } = *boxed;
                            proof {
                                let t = *old(node).unwrap();
                                let kk = t.value.unwrap().key();
                                lemma_value_mset_node(t);
                                assert(t.to_seq().to_multiset().count(t.value.unwrap()) > 0);
                                match &left {
                                    Some(n) => {
                                        assert(n.mset() =~= t.mset().remove(kk));
                                        assert((**n).to_seq().to_multiset() =~= t.to_seq()
                                            .to_multiset().remove(t.value.unwrap()));
                                    },
                                    None => {},
                                }
                            }
                            *node = left;
                        } else {
                            let m = Self::take_min(&mut boxed.right);
                            proof {
                                let t = *old(node).unwrap();
                                let kk = t.value.unwrap().key();
                                let oldright = t.right.unwrap().mset();
                                assert(oldright.count(m.key()) > 0);
                                assert(T::le(kk, m.key()));
                            }
                            boxed.value = Some(m);
                            proof {
                                let t = *old(node).unwrap();
                                let kk = t.value.unwrap().key();
                                let oldright = t.right.unwrap().mset();
                                match (&boxed.left, &t.left) {
                                    (Some(n), Some(l)) => {
                                        assert forall|k: T::Key| #[trigger] n.mset().count(k)
                                            > 0 implies below::<T>(k, m.key()) by {
                                            assert(l.mset().count(k) > 0);
                                            assert(below::<T>(k, kk));
                                            T::le_transitive(k, kk, m.key());
                                            if k == m.key() {
                                                T::le_antisymmetric(kk, m.key());
                                            }
                                        }
                                    },
                                    _ => {},
                                }
                                match &boxed.right {
                                    Some(n) => {
                                        assert(n.mset() == oldright.remove(m.key()));
                                        assert forall|k: T::Key| #[trigger] n.mset().count(k)
                                            > 0 implies T::le(m.key(), k) by {
                                            assert(oldright.count(k) > 0);
                                        }
                                    },
                                    None => {},
                                }
                                assert(boxed.wf());
                                assert(boxed.mset() =~= t.mset().remove(value.key()));
                                lemma_value_mset_node(t);
                                lemma_value_mset_node(*boxed);
                                assert(t.right.unwrap().to_seq().to_multiset().count(m) > 0);
                                assert(t.to_seq().to_multiset().count(t.value.unwrap()) > 0);
                                assert((*boxed).to_seq().to_multiset() =~= t.to_seq()
                                    .to_multiset().remove(t.value.unwrap()));
                            }
                            *node = Some(boxed);
                        }
                    },
                }
            },
        }
    }

    /// Remove one value whose key matches; a miss is a silent no-op. A
    /// matched node with two children is replaced by its in-order
    /// successor, the smallest value of its right subtree.
    #[verifier::rlimit(50)]
    pub fn delete(&mut self, value: &T)
        requires
            old(self).wf(),
        ensures
            final(self).wf(),
            final(self)@ == if old(self)@.contains(value.key()) {
                old(self)@.remove(value.key())
            } else {
                old(self)@
            },
            !old(self)@.contains(value.key()) ==> *final(self) == *old(self),
            old(self)@.contains(value.key()) ==> removes_value_with_key::<T>(
                old(self).to_seq().to_multiset(),
                final(self).to_seq().to_multiset(),
                value.key(),
            ),
            *final(self) == old(self).deleted(value.key()),
    {
        if self.value.is_none() {
            return;
        }
        let o = self.value.as_ref().unwrap().compare(value);
        match o {
            Ordering::Greater => {
                proof {
                    let kk = old(self).value.unwrap().key();
                    let vk = value.key();
                    match &old(self).right {
                        Some(r) => {
                            if r.mset().count(vk) > 0 {
                                T::le_antisymmetric(vk, kk);
                            }
                        },
                        None => {},
                    }
                }
                Self::delete_opt(&mut self.left, value);
                proof {
                    let kk = old(self).value.unwrap().key();
                    let vk = value.key();
                    match (&self.left, &old(self).left) {
                        (Some(n), Some(l)) => {
                            assert forall|k: T::Key| #[trigger] n.mset().count(k) > 0 implies below::<
                                T,
                            >(k, kk) by {
                                assert(l.mset().count(k) > 0);
                            }
                        },
                        _ => {},
                    }
                    assert(self.wf());
                    if old(self)@.contains(vk) {
                        assert(self@ =~= old(self)@.remove(vk));
                        lemma_value_mset_node(*old(self));
                        lemma_value_mset_node(*self);
                        match (&self.left, &old(self).left) {
                            (Some(f), Some(l)) => {
                                assert(l.mset().count(vk) > 0);
                                let cb = (**l).to_seq().to_multiset();
                                let ca = (**f).to_seq().to_multiset();
                                let w = choose|w: T|
                                    cb.count(w) > 0 && w.key() == vk && ca == cb.remove(w);
                                assert(old(self).to_seq().to_multiset().count(w) > 0);
                                assert(self.to_seq().to_multiset() =~= old(self).to_seq()
                                    .to_multiset().remove(w));
                            },
                            (None, Some(l)) => {
                                assert(l.mset().count(vk) > 0);
                                let cb = (**l).to_seq().to_multiset();
                                let ca = Multiset::<T>::empty();
                                let w = choose|w: T|
                                    cb.count(w) > 0 && w.key() == vk && ca == cb.remove(w);
                                assert(old(self).to_seq().to_multiset().count(w) > 0);
                                assert(self.to_seq().to_multiset() =~= old(self).to_seq()
                                    .to_multiset().remove(w));
                            },
                            _ => {
                                assert(false);
                            },
                        }
                    } else {
                        assert(self@ =~= old(self)@);
                        match &old(self).left {
                            Some(l) => {
                                assert(l.mset().count(vk) == 0);
                            },
                            None => {},
                        }
                        assert(self.left == old(self).left);
                        assert(*self == *old(self));
                    }
                    assert(kk != vk);
                    assert(T::le(vk, kk));
                    assert(old(self).deleted(vk) == BinarySearchTree {
                        value: old(self).value,
                        left: Self::spec_delete_opt(old(self).left, vk),
                        right: old(self).right,
                    });
                    assert(self.left == Self::spec_delete_opt(old(self).left, vk));
                }
            },
            Ordering::Less => {
                proof {
                    let kk = old(self).value.unwrap().key();
                    let vk = value.key();
                    match &old(self).left {
                        Some(l) => {
                            if l.mset().count(vk) > 0 {
                                T::le_antisymmetric(kk, vk);
                            }
                        },
                        None => {},
                    }
                }
                Self::delete_opt(&mut self.right, value);
                proof {
                    let kk = old(self).value.unwrap().key();
                    let vk = value.key();
                    match (&self.right, &old(self).right) {
                        (Some(n), Some(r)) => {
                            assert forall|k: T::Key| #[trigger] n.mset().count(k) > 0 implies T::le(
                                kk,
                                k,
                            ) by {
                                assert(r.mset().count(k) > 0);
                            }
                        },
                        _ => {},
                    }
                    assert(self.wf());
                    if old(self)@.contains(vk) {
                        assert(self@ =~= old(self)@.remove(vk));
                        lemma_value_mset_node(*old(self));
                        lemma_value_mset_node(*self);
                        match (&self.right, &old(self).right) {
                            (Some(f), Some(r)) => {
                                assert(r.mset().count(vk) > 0);
                                let cb = (**r).to_seq().to_multiset();
                                let ca = (**f).to_seq().to_multiset();
                                let w = choose|w: T|
                                    cb.count(w) > 0 && w.key() == vk && ca == cb.remove(w);
                                assert(old(self).to_seq().to_multiset().count(w) > 0);
                                assert(self.to_seq().to_multiset() =~= old(self).to_seq()
                                    .to_multiset().remove(w));
                            },
                            (None, Some(r)) => {
                                assert(r.mset().count(vk) > 0);
                                let cb = (**r).to_seq().to_multiset();
                                let ca = Multiset::<T>::empty();
                                let w = choose|w: T|
                                    cb.count(w) > 0 && w.key() == vk && ca == cb.remove(w);
                                assert(old(self).to_seq().to_multiset().count(w) > 0);
                                assert(self.to_seq().to_multiset() =~= old(self).to_seq()
                                    .to_multiset().remove(w));
                            },
                            _ => {
                                assert(false);
                            },
                        }
                    } else {
                        assert(self@ =~= old(self)@);
                        match &old(self).right {
                            Some(r) => {
                                assert(r.mset().count(vk) == 0);
                            },
                            None => {},
                        }
                        assert(self.right == old(self).right);
                        assert(*self == *old(self));
                    }
                    assert(kk != vk);
                    if T::le(vk, kk) {
                        T::le_antisymmetric(vk, kk);
                    }
                    assert(old(self).deleted(vk) == BinarySearchTree {
                        value: old(self).value,
                        left: old(self).left,
                        right: Self::spec_delete_opt(old(self).right, vk),
                    });
                    assert(self.right == Self::spec_delete_opt(old(self).right, vk));
                }
            },
            Ordering::Equal => {
                proof {
                    let kk = old(self).value.unwrap().key();
                    assert(old(self)@.count(kk) > 0);
                }
                if self.left.is_none() && self.right.is_none() {
                    self.value = None;
                    proof {
                        broadcast use vstd::seq_lib::group_to_multiset_ensures;

                        let kk = old(self).value.unwrap().key();
                        assert(old(self)@ =~= Multiset::empty().insert(kk));
                        assert(self@ =~= old(self)@.remove(value.key()));
                        lemma_value_mset_node(*old(self));
                        assert(old(self).to_seq().to_multiset().count(old(self).value.unwrap())
                            > 0);
                        assert(self.to_seq() =~= Seq::<T>::empty());
                        assert(self.to_seq().to_multiset() =~= old(self).to_seq().to_multiset()
                            .remove(old(self).value.unwrap()));
                    }
                } else if self.left.is_none() {
                    let r = self.right.take().unwrap();
                    *self = *r;
                    proof {
                        let kk = old(self).value.unwrap().key();
                        assert(self@ =~= old(self)@.remove(kk));
                        lemma_value_mset_node(*old(self));
                        assert(old(self).to_seq().to_multiset().count(old(self).value.unwrap())
                            > 0);
                        assert(self.to_seq().to_multiset() =~= old(self).to_seq().to_multiset()
                            .remove(old(self).value.unwrap()));
                    }
                } else if self.right.is_none() {
                    let l = self.left.take().unwrap();
                    *self = *l;
                    proof {
                        let kk = old(self).value.unwrap().key();
                        assert(self@ =~= old(self)@.remove(kk));
                        lemma_value_mset_node(*old(self));
                        assert(old(self).to_seq().to_multiset().count(old(self).value.unwrap())
                            > 0);
                        assert(self.to_seq().to_multiset() =~= old(self).to_seq().to_multiset()
                            .remove(old(self).value.unwrap()));
                    }
                } else {
                    let m = Self::take_min(&mut self.right);
                    proof {
                        let kk = old(self).value.unwrap().key();
                        let oldright = old(self).right.unwrap().mset();
                        assert(oldright.count(m.key()) > 0);
                        assert(T::le(kk, m.key()));
                    }
                    self.value = Some(m);
                    proof {
                        let kk = old(self).value.unwrap().key();
                        let oldright = old(self).right.unwrap().mset();
                        match (&self.left, &old(self).left) {
                            (Some(n), Some(l)) => {
                                assert forall|k: T::Key| #[trigger] n.mset().count(k)
                                    > 0 implies below::<T>(k, m.key()) by {
                                    assert(l.mset().count(k) > 0);
                                    assert(below::<T>(k, kk));
                                    T::le_transitive(k, kk, m.key());
                                    if k == m.key() {
                                        T::le_antisymmetric(kk, m.key());
                                    }
                                }
                            },
                            _ => {},
                        }
                        match &self.right {
                            Some(n) => {
                                assert(n.mset() == oldright.remove(m.key()));
                                assert forall|k: T::Key| #[trigger] n.mset().count(k)
                                    > 0 implies T::le(m.key(), k) by {
                                    assert(oldright.count(k) > 0);
                                }
                            },
                            None => {},
                        }
                        assert(self.wf());
                        assert(self@ =~= old(self)@.remove(value.key()));
                        lemma_value_mset_node(*old(self));
                        lemma_value_mset_node(*self);
                        assert(old(self).right.unwrap().to_seq().to_multiset().count(m) > 0);
                        assert(old(self).to_seq().to_multiset().count(old(self).value.unwrap())
                            > 0);
                        assert(self.to_seq().to_multiset() =~= old(self).to_seq().to_multiset()
                            .remove(old(self).value.unwrap()));
                    }
                }
            },
        }
    }

    /// Remove one value whose key matches, exactly as `delete` does; kept
    /// as a second name for the same operation.
    pub fn delete_node(&mut self, value: &T)
        requires
            old(self).wf(),
        ensures
            final(self).wf(),
            final(self)@ == if old(self)@.contains(value.key()) {
                old(self)@.remove(value.key())
            } else {
                old(self)@
            },
            !old(self)@.contains(value.key()) ==> *final(self) == *old(self),
            old(self)@.contains(value.key()) ==> removes_value_with_key::<T>(
                old(self).to_seq().to_multiset(),
                final(self).to_seq().to_multiset(),
                value.key(),
            ),
            *final(self) == old(self).deleted(value.key()),
    {
        self.delete(value);
    }

    /// Insert a value at the appropriate location. A value whose key is
    /// already present is routed into the right subtree of its duplicate,
    /// so the multiset of keys always grows by one.
    pub fn insert(&mut self, value: T)
        requires
            old(self).wf(),
        ensures
            final(self).wf(),
            final(self)@ == old(self)@.insert(value.key()),
            final(self).to_seq().to_multiset() == old(self).to_seq().to_multiset().insert(value),
            *final(self) == old(self).inserted(value),
    {
        self.insert_inner(value);
    }
}

impl<T: TotalOrder + Copy> BinarySearchTree<T> {
    /// The tree that `insert_node` leaves behind: unchanged when the key
    /// is already present, else with a fresh leaf holding the value at
    /// its search position.
    pub closed spec fn inserted_if_new(self, value: T) -> BinarySearchTree<T>
        decreases self,
    {
        match self.value {
            None => BinarySearchTree { value: Some(value), left: self.left, right: self.right },
            Some(v) => {
                let kk = v.key();
                if value.key() == kk {
                    self
                } else if T::le(value.key(), kk) {
                    BinarySearchTree {
                        value: self.value,
                        left: Some(
                            Box::new(
                                match self.left {
                                    Some(l) => (*l).inserted_if_new(value),
                                    None => Self::leaf_of(value),
                                },
                            ),
                        ),
                        right: self.right,
                    }
                } else {
                    BinarySearchTree {
                        value: self.value,
                        left: self.left,
                        right: Some(
                            Box::new(
                                match self.right {
                                    Some(r) => (*r).inserted_if_new(value),
                                    None => Self::leaf_of(value),
                                },
                            ),
                        ),
                    }
                }
            },
        }
    }

    /// Recursive worker for `insert_node`.
    fn insert_node_inner(&mut self, value: &T)
        requires
            old(self).wf(),
        ensures
            final(self).wf(),
            final(self).value is Some,
            final(self)@ == if old(self)@.contains(value.key()) {
                old(self)@
            } else {
                old(self)@.insert(value.key())
            },
            old(self)@.contains(value.key()) ==> *final(self) == *old(self),
            !old(self)@.contains(value.key()) ==> final(self).to_seq().to_multiset() == old(
                self,
            ).to_seq().to_multiset().insert(*value),
            *final(self) == old(self).inserted_if_new(*value),
        decreases *old(self),
    {
        if self.value.is_none() {
            self.value = Some(*value);
            proof {
                broadcast use vstd::seq_lib::group_to_multiset_ensures;

                assert(old(self)@ =~= Multiset::<T::Key>::empty());
                assert(self@ =~= old(self)@.insert(value.key()));
                assert(old(self).to_seq() =~= Seq::<T>::empty());
                assert(old(self).to_seq().to_multiset() =~= Multiset::<T>::empty());
                lemma_value_mset_node(*self);
                assert(self.to_seq().to_multiset() =~= old(self).to_seq().to_multiset().insert(
                    *value,
                ));
            }
            return;
        }
        let o = self.value.as_ref().unwrap().compare(value);
        match o {
            Ordering::Equal => {
                proof {
                    let kk = old(self).value.unwrap().key();
                    assert(self@.count(kk) > 0);
                }
            },
            Ordering::Greater => {
                proof {
                    let kk = old(self).value.unwrap().key();
                    let vk = value.key();
                    match &self.right {
                        Some(r) => {
                            if r.mset().count(vk) > 0 {
                                T::le_antisymmetric(vk, kk);
                            }
                        },
                        None => {},
                    }
                }
                let child = self.left.take();
                match child {
                    Some(mut node) => {
                        (&mut *node).insert_node_inner(value);
                        self.left = Some(node);
                    },
                    None => {
                        self.left = Some(
                            Box::new(
                                BinarySearchTree { value: Some(*value), left: None, right: None },
                            ),
                        );
                        proof {
                            let l = *self.left.unwrap();
                            assert(l.wf());
                            assert(l.mset() =~= Multiset::<T::Key>::empty().insert(value.key()));
                        }
                    },
                }
                proof {
                    if old(self)@.contains(value.key()) {
                        assert(self@ =~= old(self)@);
                        match &old(self).left {
                            Some(l) => {
                                assert(l.mset().count(value.key()) > 0);
                            },
                            None => {},
                        }
                        assert(self.left == old(self).left);
                        assert(*self == *old(self));
                    } else {
                        assert(self@ =~= old(self)@.insert(value.key()));
                        broadcast use vstd::seq_lib::group_to_multiset_ensures;

                        lemma_value_mset_node(*old(self));
                        lemma_value_mset_node(*self);
                        match (&self.left, &old(self).left) {
                            (Some(n), None) => {
                                lemma_value_mset_node(**n);
                                assert((**n).to_seq().to_multiset() =~= Multiset::<
                                    T,
                                >::empty().insert(*value));
                            },
                            _ => {},
                        }
                        assert(self.to_seq().to_multiset() =~= old(self).to_seq().to_multiset()
                            .insert(*value));
                    }
                    let vk = value.key();
                    let kk = old(self).value.unwrap().key();
                    assert(T::le(vk, kk) && vk != kk);
                    match (&self.left, &old(self).left) {
                        (Some(n), Some(l)) => {
                            assert(**n == (**l).inserted_if_new(*value));
                            assert(*n == Box::new((**l).inserted_if_new(*value)));
                        },
                        (Some(n), None) => {
                            assert(**n == Self::leaf_of(*value));
                            assert(*n == Box::new(Self::leaf_of(*value)));
                        },
                        _ => {
                            assert(false);
                        },
                    }
                    assert(old(self).inserted_if_new(*value) == BinarySearchTree {
                        value: old(self).value,
                        left: Some(
                            Box::new(
                                match old(self).left {
                                    Some(l) => (*l).inserted_if_new(*value),
                                    None => Self::leaf_of(*value),
                                },
                            ),
                        ),
                        right: old(self).right,
                    });
                    assert(*self == old(self).inserted_if_new(*value));
                }
            },
            Ordering::Less => {
                proof {
                    let kk = old(self).value.unwrap().key();
                    let vk = value.key();
                    match &self.left {
                        Some(l) => {
                            if l.mset().count(vk) > 0 {
                                T::le_antisymmetric(kk, vk);
                            }
                        },
                        None => {},
                    }
                }
                let child = self.right.take();
                match child {
                    Some(mut node) => {
                        (&mut *node).insert_node_inner(value);
                        self.right = Some(node);
                    },
                    None => {
                        self.right = Some(
                            Box::new(
                                BinarySearchTree { value: Some(*value), left: None, right: None },
                            ),
                        );
                        proof {
                            let r = *self.right.unwrap();
                            assert(r.wf());
                            assert(r.mset() =~= Multiset::<T::Key>::empty().insert(value.key()));
                        }
                    },
                }
                proof {
                    if old(self)@.contains(value.key()) {
                        assert(self@ =~= old(self)@);
                        match &old(self).right {
                            Some(r) => {
                                assert(r.mset().count(value.key()) > 0);
                            },
                            None => {},
                        }
                        assert(self.right == old(self).right);
                        assert(*self == *old(self));
                    } else {
                        assert(self@ =~= old(self)@.insert(value.key()));
                        broadcast use vstd::seq_lib::group_to_multiset_ensures;

                        lemma_value_mset_node(*old(self));
                        lemma_value_mset_node(*self);
                        match (&self.right, &old(self).right) {
                            (Some(n), None) => {
                                lemma_value_mset_node(**n);
                                assert((**n).to_seq().to_multiset() =~= Multiset::<
                                    T,
                                >::empty().insert(*value));
                            },
                            _ => {},
                        }
                        assert(self.to_seq().to_multiset() =~= old(self).to_seq().to_multiset()
                            .insert(*value));
                    }
                    let vk = value.key();
                    let kk = old(self).value.unwrap().key();
                    assert(vk != kk);
                    if T::le(vk, kk) {
                        T::le_antisymmetric(vk, kk);
                    }
                    match (&self.right, &old(self).right) {
                        (Some(n), Some(r)) => {
                            assert(**n == (**r).inserted_if_new(*value));
                            assert(*n == Box::new((**r).inserted_if_new(*value)));
                        },
                        (Some(n), None) => {
                            assert(**n == Self::leaf_of(*value));
                            assert(*n == Box::new(Self::leaf_of(*value)));
                        },
                        _ => {
                            assert(false);
                        },
                    }
                    assert(old(self).inserted_if_new(*value) == BinarySearchTree {
                        value: old(self).value,
                        left: old(self).left,
                        right: Some(
                            Box::new(
                                match old(self).right {
                                    Some(r) => (*r).inserted_if_new(*value),
                                    None => Self::leaf_of(*value),
                                },
                            ),
                        ),
                    });
                    assert(*self == old(self).inserted_if_new(*value));
                }
            },
        }
    }

    /// Insert a copy of the value, short-circuiting when its key is
    /// already present: unlike `insert`, re-inserting an existing key
    /// leaves the tree unchanged.
    pub fn insert_node(&mut self, value: &T)
        requires
            old(self).wf(),
        ensures
            final(self).wf(),
            final(self)@ == if old(self)@.contains(value.key()) {
                old(self)@
            } else {
                old(self)@.insert(value.key())
            },
            old(self)@.contains(value.key()) ==> *final(self) == *old(self),
            !old(self)@.contains(value.key()) ==> final(self).to_seq().to_multiset() == old(
                self,
            ).to_seq().to_multiset().insert(*value),
            *final(self) == old(self).inserted_if_new(*value),
    {
        self.insert_node_inner(value);
    }

    /// Returns an iterator over copies of the stored values in ascending
    /// key order.
    pub fn iter(&self) -> (it: BinarySearchTreeIter<T>)
        requires
            self.wf(),
        ensures
            it.wf(),
            it.remaining() == self.to_seq(),
    {
        BinarySearchTreeIter::new(self)
    }
}

/// The values a node still owes an in-order traversal once it is popped:
/// its own value, then its right subtree.
spec fn pending<T: TotalOrder>(n: BinarySearchTree<T>) -> Seq<T> {
    match n.value {
        None => Seq::empty(),
        Some(v) => seq![v] + (match n.right {
            Some(r) => r.to_seq(),
            None => Seq::empty(),
        }),
    }
}

/// The values still owed by a traversal stack, top of stack first.
spec fn stack_rest<T: TotalOrder>(s: Seq<&BinarySearchTree<T>>) -> Seq<T>
    decreases s.len(),
{
    if s.len() == 0 {
        Seq::empty()
    } else {
        pending(*s.last()) + stack_rest(s.drop_last())
    }
}

/// Every stacked node is well-formed and holds a value.
spec fn stack_frames_ok<T: TotalOrder>(s: Seq<&BinarySearchTree<T>>) -> bool {
    forall|i: int| #![trigger s[i]] 0 <= i < s.len() ==> s[i].wf() && s[i].value is Some
}

proof fn lemma_stack_rest_push<T: TotalOrder>(
    s: Seq<&BinarySearchTree<T>>,
    f: &BinarySearchTree<T>,
)
    ensures
        stack_rest(s.push(f)) == pending(*f) + stack_rest(s),
{
    assert(s.push(f).drop_last() =~= s);
    assert(s.push(f).last() == f);
}

/// Push a subtree and its chain of left children; the stack then owes the
/// whole subtree's in-order sequence on top of what it owed before.
fn push_left_spine<'a, T: TotalOrder>(
    stack: &mut Vec<&'a BinarySearchTree<T>>,
    tree: &'a BinarySearchTree<T>,
)
    requires
        tree.wf(),
        tree.value is Some,
        stack_frames_ok(old(stack)@),
    ensures
        stack_frames_ok(final(stack)@),
        stack_rest(final(stack)@) == tree.to_seq() + stack_rest(old(stack)@),
    decreases tree,
{
    let mut cur = tree;
    proof {
        lemma_stack_rest_push(stack@, cur);
    }
    stack.push(cur);
    proof {
        assert forall|i: int| 0 <= i < stack@.len() implies (#[trigger] stack@[i].wf())
            && stack@[i].value is Some by {
            if i < old(stack)@.len() {
                assert(stack@[i] == old(stack)@[i]);
                assert(old(stack)@[i].wf() && old(stack)@[i].value is Some);
            } else {
                assert(stack@[i] == cur);
            }
        }
    }
    while cur.left.is_some()
        invariant
            cur.wf(),
            cur.value is Some,
            stack_frames_ok(stack@),
            (match cur.left {
                Some(l) => l.to_seq(),
                None => Seq::empty(),
            }) + stack_rest(stack@) == tree.to_seq() + stack_rest(old(stack)@),
        decreases cur,
    {
        let child: &BinarySearchTree<T> = &**(cur.left.as_ref().unwrap());
        let ghost before = stack@;
        proof {
            assert(stack_frames_ok(before));
            assert(child.wf() && child.value is Some);
            lemma_stack_rest_push(stack@, child);
            assert((match child.left {
                Some(l) => l.to_seq(),
                None => Seq::empty(),
            }) + (pending(*child) + stack_rest(stack@)) =~= (match cur.left {
                Some(l) => l.to_seq(),
                None => Seq::empty(),
            }) + stack_rest(stack@));
        }
        stack.push(child);
        proof {
            assert forall|i: int| 0 <= i < stack@.len() implies (#[trigger] stack@[i].wf())
                && stack@[i].value is Some by {
                if i < before.len() {
                    assert(stack@[i] == before[i]);
                    assert(before[i].wf() && before[i].value is Some);
                } else {
                    assert(stack@[i] == child);
                }
            }
        }
        cur = child;
    }
}

/// An iterator yielding the values of a `BinarySearchTree` in ascending
/// key order. It is driven by calling `next` until it reports nothing;
/// it does not restart.
pub struct BinarySearchTreeIter<T: TotalOrder + Copy> {
    items: Vec<T>,
    pos: usize,
}

impl<T: TotalOrder + Copy> BinarySearchTreeIter<T> {
    /// The iterator has not stepped past its collected values.
    pub closed spec fn wf(self) -> bool {
        self.pos <= self.items@.len()
    }

    /// The values the iterator has not yet yielded, in order.
    pub closed spec fn remaining(self) -> Seq<T> {
        self.items@.subrange(self.pos as int, self.items@.len() as int)
    }

    /// Create an iterator positioned at the smallest key of the tree,
    /// collecting the values by an explicit stack-based in-order walk.
    pub fn new(tree: &BinarySearchTree<T>) -> (it: BinarySearchTreeIter<T>)
        requires
            tree.wf(),
        ensures
            it.wf(),
            it.remaining() == tree.to_seq(),
    {
        let mut items: Vec<T> = Vec::new();
        let mut stack: Vec<&BinarySearchTree<T>> = Vec::new();
        if tree.value.is_some() {
            push_left_spine(&mut stack, tree);
        } else {
            proof {
                assert(tree.to_seq() =~= Seq::<T>::empty());
            }
        }
        proof {
            assert(items@ + stack_rest(stack@) =~= tree.to_seq());
        }
        while stack.len() > 0
            invariant
                stack_frames_ok(stack@),
                items@ + stack_rest(stack@) == tree.to_seq(),
            decreases stack_rest(stack@).len(),
    {
            let ghost pre_stack = stack@;
            let node = stack.pop().unwrap();
            proof {
                assert(pre_stack[pre_stack.len() - 1].wf() && pre_stack[pre_stack.len() - 1].value
                    is Some);
                assert(pre_stack.last() == node);
                assert(node.wf() && node.value is Some);
                assert(pre_stack.drop_last() =~= stack@);
                assert(stack_rest(pre_stack) == pending(*node) + stack_rest(stack@));
                assert forall|i: int| 0 <= i < stack@.len() implies (#[trigger] stack@[i].wf())
                    && stack@[i].value is Some by {
                    assert(stack@[i] == pre_stack[i]);
                    assert(pre_stack[i].wf() && pre_stack[i].value is Some);
                }
            }
            let v = *node.value.as_ref().unwrap();
            items.push(v);
            match &node.right {
                Some(r) => {
                    proof {
                        let rt = **r;
                        assert(rt.wf() && rt.value is Some);
                    }
                    push_left_spine(&mut stack, &**r);
                    proof {
                        assert(items@ + stack_rest(stack@) =~= tree.to_seq());
                    }
                },
                None => {
                    proof {
                        assert(pending(*node) =~= seq![v]);
                        assert(items@ + stack_rest(stack@) =~= tree.to_seq());
                    }
                },
            }
        }
        proof {
            assert(items@ =~= tree.to_seq());
            assert(items@.subrange(0, items@.len() as int) =~= items@);
        }
        BinarySearchTreeIter { items, pos: 0 }
    }

    /// Yield the next value in ascending key order, or nothing once all
    /// values have been yielded; an exhausted iterator stays exhausted.
    pub fn next(&mut self) -> (n: Option<T>)
        requires
            old(self).wf(),
        ensures
            final(self).wf(),
            old(self).remaining().len() == 0 ==> n is None && *final(self) == *old(self),
            old(self).remaining().len() > 0 ==> n == Some(old(self).remaining()[0])
                && final(self).remaining() == old(self).remaining().drop_first(),
    {
        if self.pos < self.items.len() {
            let v = self.items[self.pos];
            self.pos = self.pos + 1;
            proof {
                assert(self.items@.subrange(self.pos as int, self.items@.len() as int)
                    =~= old(self).remaining().drop_first());
            }
            Some(v)
        } else {
            None
        }
    }
}

/// The keys of a sequence of stored values, in the same order.
pub open spec fn keys_of<T: TotalOrder>(s: Seq<T>) -> Seq<T::Key> {
    s.map_values(|t: T| t.key())
}

proof fn lemma_keys_of_concat<T: TotalOrder>(a: Seq<T>, b: Seq<T>)
    ensures
        keys_of::<T>(a + b) == keys_of::<T>(a) + keys_of::<T>(b),
{
    assert(keys_of::<T>(a + b) =~= keys_of::<T>(a) + keys_of::<T>(b));
}

/// A sequence holds an element at two positions only if its multiset
/// counts it at least twice.
proof fn lemma_count_at_least_two<A>(s: Seq<A>, i: int, j: int)
    requires
        0 <= i < j < s.len(),
        s[i] == s[j],
    ensures
        s.to_multiset().count(s[i]) >= 2,
{
    broadcast use vstd::seq_lib::group_to_multiset_ensures;

    let s1 = s.subrange(0, j);
    let s2 = s.subrange(j, s.len() as int);
    assert(s =~= s1 + s2);
    vstd::seq_lib::lemma_multiset_commutative(s1, s2);
    assert(s1[i] == s[i]);
    assert(s1.contains(s[i]));
    assert(s2[0] == s[i]);
    assert(s2.contains(s[i]));
    assert(s1.to_multiset().count(s[i]) > 0);
    assert(s2.to_multiset().count(s[i]) > 0);
}

/// One stored value carrying the given key has been removed, and every
/// other stored value is untouched.
pub open spec fn removes_value_with_key<T: TotalOrder>(
    before: Multiset<T>,
    after: Multiset<T>,
    k: T::Key,
) -> bool {
    exists|w: T|
        #![trigger before.count(w)]
        before.count(w) > 0 && w.key() == k && after == before.remove(w)
}

/// The multiset of stored values of a non-empty tree decomposes into the
/// root's value and the two subtrees' values.
proof fn lemma_value_mset_node<T: TotalOrder>(t: BinarySearchTree<T>)
    requires
        t.value is Some,
    ensures
        t.to_seq().to_multiset() == (match t.left {
            Some(l) => l.to_seq().to_multiset(),
            None => Multiset::<T>::empty(),
        }).insert(t.value.unwrap()).add(
            match t.right {
                Some(r) => r.to_seq().to_multiset(),
                None => Multiset::<T>::empty(),
            },
        ),
{
    broadcast use vstd::seq_lib::group_to_multiset_ensures;

    let v = t.value.unwrap();
    let ls = match t.left {
        Some(l) => l.to_seq(),
        None => Seq::<T>::empty(),
    };
    let rs = match t.right {
        Some(r) => r.to_seq(),
        None => Seq::<T>::empty(),
    };
    assert(t.to_seq() == ls + seq![v] + rs);
    vstd::seq_lib::lemma_multiset_commutative(ls + seq![v], rs);
    vstd::seq_lib::lemma_multiset_commutative(ls, seq![v]);
    assert(seq![v] =~= Seq::<T>::empty().push(v));
    assert(Seq::<T>::empty().push(v).to_multiset() =~= Multiset::<T>::empty().insert(v));
    assert(Seq::<T>::empty().to_multiset() =~= Multiset::<T>::empty());
    assert(t.to_seq().to_multiset() =~= (match t.left {
        Some(l) => l.to_seq().to_multiset(),
        None => Multiset::<T>::empty(),
    }).insert(v).add(
        match t.right {
            Some(r) => r.to_seq().to_multiset(),
            None => Multiset::<T>::empty(),
        },
    ));
}

impl<T: TotalOrder> BinarySearchTree<T> {
    /// The in-order walk of a well-formed tree lists exactly the stored
    /// keys (`self@` as a multiset), in ascending key order.
    pub proof fn lemma_in_order(self)
        requires
            self.wf(),
        ensures
            keys_of::<T>(self.to_seq()).to_multiset() == self@,
            self.to_seq().len() == self@.len(),
            forall|i: int, j: int|
                0 <= i <= j < self.to_seq().len() ==> T::le(
                    #[trigger] self.to_seq()[i].key(),
                    #[trigger] self.to_seq()[j].key(),
                ),
        decreases self,
    {
        broadcast use vstd::seq_lib::group_to_multiset_ensures;

        match self.value {
            None => {
                assert(self.to_seq() =~= Seq::<T>::empty());
                assert(keys_of::<T>(self.to_seq()) =~= Seq::<T::Key>::empty());
                assert(keys_of::<T>(self.to_seq()).to_multiset() =~= Multiset::<T::Key>::empty());
            },
            Some(v) => {
                let kk = v.key();
                let ls = match self.left {
                    Some(l) => l.to_seq(),
                    None => Seq::<T>::empty(),
                };
                let rs = match self.right {
                    Some(r) => r.to_seq(),
                    None => Seq::<T>::empty(),
                };
                let lm = match self.left {
                    Some(l) => l.mset(),
                    None => Multiset::<T::Key>::empty(),
                };
                let rm = match self.right {
                    Some(r) => r.mset(),
                    None => Multiset::<T::Key>::empty(),
                };
                match self.left {
                    Some(l) => {
                        l.lemma_in_order();
                    },
                    None => {
                        assert(keys_of::<T>(ls) =~= Seq::<T::Key>::empty());
                        assert(keys_of::<T>(ls).to_multiset() =~= Multiset::<T::Key>::empty());
                    },
                }
                match self.right {
                    Some(r) => {
                        r.lemma_in_order();
                    },
                    None => {
                        assert(keys_of::<T>(rs) =~= Seq::<T::Key>::empty());
                        assert(keys_of::<T>(rs).to_multiset() =~= Multiset::<T::Key>::empty());
                    },
                }
                assert(self.to_seq() == ls + seq![v] + rs);
                lemma_keys_of_concat::<T>(ls + seq![v], rs);
                lemma_keys_of_concat::<T>(ls, seq![v]);
                vstd::seq_lib::lemma_multiset_commutative(
                    keys_of::<T>(ls + seq![v]),
                    keys_of::<T>(rs),
                );
                vstd::seq_lib::lemma_multiset_commutative(keys_of::<T>(ls), keys_of::<T>(seq![v]));
                assert(keys_of::<T>(seq![v]) =~= Seq::<T::Key>::empty().push(kk));
                assert(Seq::<T::Key>::empty().push(kk).to_multiset() =~= Multiset::<
                    T::Key,
                >::empty().insert(kk));
                assert(keys_of::<T>(self.to_seq()).to_multiset() =~= self@);
                assert(self.to_seq().len() == self@.len());

                let ts = self.to_seq();
                assert forall|i: int, j: int| 0 <= i <= j < ts.len() implies T::le(
                    #[trigger] ts[i].key(),
                    #[trigger] ts[j].key(),
                ) by {
                    let nl = ls.len() as int;
                    if i < nl {
                        assert(ts[i] == ls[i]);
                        assert(keys_of::<T>(ls)[i] == ls[i].key());
                        assert(keys_of::<T>(ls).contains(ls[i].key()));
                        assert(lm.count(ls[i].key()) > 0);
                        assert(T::le(ls[i].key(), kk));
                    } else if i == nl {
                        assert(ts[i] == v);
                    } else {
                        assert(ts[i] == rs[i - nl - 1]);
                        assert(keys_of::<T>(rs)[i - nl - 1] == rs[i - nl - 1].key());
                        assert(keys_of::<T>(rs).contains(rs[i - nl - 1].key()));
                        assert(rm.count(rs[i - nl - 1].key()) > 0);
                        assert(T::le(kk, rs[i - nl - 1].key()));
                    }
                    if j < nl {
                        assert(ts[j] == ls[j]);
                        assert(keys_of::<T>(ls)[j] == ls[j].key());
                        assert(keys_of::<T>(ls).contains(ls[j].key()));
                        assert(lm.count(ls[j].key()) > 0);
                        assert(T::le(ls[j].key(), kk));
                    } else if j == nl {
                        assert(ts[j] == v);
                    } else {
                        assert(ts[j] == rs[j - nl - 1]);
                        assert(keys_of::<T>(rs)[j - nl - 1] == rs[j - nl - 1].key());
                        assert(keys_of::<T>(rs).contains(rs[j - nl - 1].key()));
                        assert(rm.count(rs[j - nl - 1].key()) > 0);
                        assert(T::le(kk, rs[j - nl - 1].key()));
                    }
                    if i < nl && j < nl {
                    } else if i < nl && j == nl {
                    } else if i < nl && j > nl {
                        T::le_transitive(ts[i].key(), kk, ts[j].key());
                    } else if i == nl && j == nl {
                        T::le_total(kk, kk);
                    } else if i == nl && j > nl {
                    } else {
                    }
                }
            },
        }
    }

    /// With no duplicate keys, the in-order walk is strictly ascending.
    pub proof fn lemma_in_order_strict(self)
        requires
            self.wf(),
            forall|k: T::Key| #[trigger] self@.count(k) <= 1,
        ensures
            forall|i: int, j: int|
                0 <= i < j < self.to_seq().len() ==> below::<T>(
                    #[trigger] self.to_seq()[i].key(),
                    #[trigger] self.to_seq()[j].key(),
                ),
    {
        broadcast use vstd::seq_lib::group_to_multiset_ensures;

        self.lemma_in_order();
        let ts = self.to_seq();
        let ks = keys_of::<T>(ts);
        assert forall|i: int, j: int| 0 <= i < j < ts.len() implies below::<T>(
            #[trigger] ts[i].key(),
            #[trigger] ts[j].key(),
        ) by {
            assert(T::le(ts[i].key(), ts[j].key()));
            if ts[i].key() == ts[j].key() {
                assert(ks[i] == ts[i].key());
                assert(ks[j] == ts[j].key());
                lemma_count_at_least_two::<T::Key>(ks, i, j);
                assert(self@.count(ts[i].key()) >= 2);
            }
        }
    }

    /// The smallest stored key, as `minimum` reports it, is the key of
    /// the first value of the in-order walk; the largest, as `maximum`
    /// reports it, is the key of the last.
    pub proof fn lemma_extremes_are_ends(self, mk: T::Key, xk: T::Key)
        requires
            self.wf(),
            self.to_seq().len() > 0,
            self@.contains(mk),
            forall|k: T::Key| #[trigger] self@.count(k) > 0 ==> T::le(mk, k),
            self@.contains(xk),
            forall|k: T::Key| #[trigger] self@.count(k) > 0 ==> T::le(k, xk),
        ensures
            mk == keys_of::<T>(self.to_seq())[0],
            xk == keys_of::<T>(self.to_seq())[self.to_seq().len() - 1],
    {
        broadcast use vstd::seq_lib::group_to_multiset_ensures;

        self.lemma_in_order();
        let ts = self.to_seq();
        let ks = keys_of::<T>(ts);
        assert(ks.contains(ks[0]));
        assert(self@.count(ks[0]) > 0);
        assert(ks.to_multiset().count(mk) > 0);
        assert(ks.contains(mk));
        let i = choose|i: int| 0 <= i < ks.len() && ks[i] == mk;
        assert(ks[i] == ts[i].key());
        assert(T::le(ts[0].key(), ts[i].key()));
        T::le_antisymmetric(mk, ks[0]);
        let n = ts.len() as int;
        assert(ks.contains(ks[n - 1]));
        assert(self@.count(ks[n - 1]) > 0);
        assert(ks.to_multiset().count(xk) > 0);
        assert(ks.contains(xk));
        let j = choose|j: int| 0 <= j < ks.len() && ks[j] == xk;
        assert(ks[j] == ts[j].key());
        assert(T::le(ts[j].key(), ts[n - 1].key()));
        T::le_antisymmetric(xk, ks[n - 1]);
    }
}

/// Keys reported by `floor` and `ceil` bracket the query key, and when
/// the query key itself is stored both coincide with it.
pub proof fn lemma_floor_ceil_bracket<T: TotalOrder>(
    s: Multiset<T::Key>,
    v: T::Key,
    f: T::Key,
    c: T::Key,
)
    requires
        s.contains(f),
        T::le(f, v),
        forall|k: T::Key| #[trigger] s.count(k) > 0 && T::le(k, v) ==> T::le(k, f),
        s.contains(c),
        T::le(v, c),
        forall|k: T::Key| #[trigger] s.count(k) > 0 && T::le(v, k) ==> T::le(c, k),
    ensures
        s.contains(v) ==> f == v && c == v,
{
    if s.contains(v) {
        T::le_total(v, v);
        assert(s.count(v) > 0);
        T::le_antisymmetric(f, v);
        T::le_antisymmetric(v, c);
    }
}

/// How membership responds to the view changes that `insert` and
/// `delete` make: an inserted key is present; removing it again restores
/// the old view; and both operations leave every other key's count
/// untouched.
pub proof fn lemma_membership_ops<T: TotalOrder>(s: Multiset<T::Key>, v: T::Key, w: T::Key)
    ensures
        s.insert(v).contains(v),
        s.insert(v).remove(v) == s,
        w != v ==> s.remove(v).count(w) == s.count(w),
        w != v ==> s.insert(v).count(w) == s.count(w),
{
    broadcast use vstd::multiset::group_multiset_axioms;

    assert(s.insert(v).remove(v) =~= s);
}

impl<T: TotalOrder> View for BinarySearchTree<T> {
    type V = Multiset<T::Key>;

    open spec fn view(&self) -> Multiset<T::Key> {
        self.mset()
    }
}

impl<T: TotalOrder + Copy> Clone for BinarySearchTree<T> {
    /// A clone of a tree equals the tree.
    fn clone(&self) -> (res: Self)
        ensures
            res == *self,
        decreases self,
    {
        BinarySearchTree {
            value: self.value,
            left: (match &self.left {
                Some(node) => Some(Box::new((&**node).clone())),
                None => None,
            }),
            right: (match &self.right {
                Some(node) => Some(Box::new((&**node).clone())),
                None => None,
            }),
        }
    }
}

impl<T: TotalOrder> Default for BinarySearchTree<T> {
    /// The default tree is the empty tree.
    fn default() -> (tree: Self)
        ensures
            tree.wf(),
            tree@ == Multiset::<T::Key>::empty(),
    {
        BinarySearchTree::new()
    }
}

} // verus!
