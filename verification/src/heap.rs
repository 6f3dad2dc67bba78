//! An array-backed binary heap ordered by a caller-supplied comparison
//! predicate, so one structure serves as min-heap, max-heap or a heap
//! over any custom key.
//!
//! The storage keeps a sentinel default value at position 0 so that the
//! live elements sit at 1-based positions with `parent(i) = i / 2`. The
//! view `self@` is the sequence of live elements. The predicate is
//! modelled by the relation it decides (`relation()`); the heap property
//! (`ordered()`) says no element ranks strictly above its parent under
//! that relation.

use vstd::prelude::*;

verus! {

use core::cmp::Ordering;
use vstd::multiset::Multiset;
use crate::order::TotalOrder;

/// Calling `f` is always allowed, and every result it can return equals
/// `r` on the two arguments: `f` decides the relation `r`.
pub open spec fn decided_by<T, F: Fn(&T, &T) -> bool>(f: F, r: spec_fn(T, T) -> bool) -> bool {
    &&& (forall|x: &T, y: &T| call_requires(f, (x, y)))
    &&& (forall|x: &T, y: &T, b: bool| call_ensures(f, (x, y), b) ==> b == r(*x, *y))
}

/// A strict weak order: asymmetric, transitive, and a pair it relates
/// splits every third element to one side or the other. Both `<` and `>`
/// of a total order qualify, as does comparison through any key.
pub open spec fn strict_weak_order<T>(r: spec_fn(T, T) -> bool) -> bool {
    &&& (forall|a: T, b: T| #[trigger] r(a, b) ==> !r(b, a))
    &&& (forall|a: T, b: T, c: T| #[trigger] r(a, b) && #[trigger] r(b, c) ==> r(a, c))
    &&& (forall|a: T, b: T, c: T|
        #![trigger r(a, b), r(a, c)]
        #![trigger r(a, b), r(c, b)]
        r(a, b) ==> r(a, c) || r(c, b))
}

/// The strictly-below relation of a total order on keys.
pub open spec fn key_below<T: TotalOrder>() -> spec_fn(T, T) -> bool {
    |x: T, y: T| T::le(x.key(), y.key()) && x.key() != y.key()
}

/// The strictly-above relation of a total order on keys.
pub open spec fn key_above<T: TotalOrder>() -> spec_fn(T, T) -> bool {
    |x: T, y: T| T::le(y.key(), x.key()) && x.key() != y.key()
}

/// The heap property over a 1-based storage sequence: none of the
/// `count` live elements ranks strictly above its parent.
pub open spec fn heap_ordered<T>(r: spec_fn(T, T) -> bool, s: Seq<T>, count: int) -> bool {
    forall|i: int| #![trigger s[i]] 2 <= i <= count ==> !r(s[i], s[i / 2])
}

/// The heap property except between position `j` and its children.
spec fn heap_ordered_except<T>(r: spec_fn(T, T) -> bool, s: Seq<T>, count: int, j: int) -> bool {
    forall|i: int| #![trigger s[i]] 2 <= i <= count && i / 2 != j ==> !r(s[i], s[i / 2])
}

/// The heap property except between position `j` and its parent.
spec fn heap_ordered_except_at<T>(r: spec_fn(T, T) -> bool, s: Seq<T>, count: int, j: int) -> bool {
    forall|i: int| #![trigger s[i]] 2 <= i <= count && i != j ==> !r(s[i], s[i / 2])
}

/// Both live children of position `j` rank no higher than the element
/// at position `p`.
spec fn heap_children_below<T>(
    r: spec_fn(T, T) -> bool,
    s: Seq<T>,
    count: int,
    j: int,
    p: int,
) -> bool {
    &&& (2 * j <= count ==> !r(s[2 * j], s[p]))
    &&& (2 * j + 1 <= count ==> !r(s[2 * j + 1], s[p]))
}

/// A sift-up from position `j` can restore the heap property.
spec fn heap_sift_up_ready<T>(r: spec_fn(T, T) -> bool, s: Seq<T>, count: int, j: int) -> bool {
    &&& heap_ordered_except_at(r, s, count, j)
    &&& (2 <= j ==> heap_children_below(r, s, count, j, j / 2))
}

/// A sift-down from position `j` can restore the heap property.
spec fn heap_sift_down_ready<T>(r: spec_fn(T, T) -> bool, s: Seq<T>, count: int, j: int) -> bool {
    &&& heap_ordered_except(r, s, count, j)
    &&& (2 <= j ==> heap_children_below(r, s, count, j, j / 2))
}

/// The heap property over the live elements as `self@` shows them: the
/// element at index `k` ranks no higher than its parent at `(k - 1) / 2`.
pub open spec fn view_heap_ordered<T>(r: spec_fn(T, T) -> bool, v: Seq<T>) -> bool {
    forall|k: int| #![trigger v[k]] 1 <= k < v.len() ==> !r(v[k], v[(k - 1) / 2])
}

/// The heap property over the live elements, except that the element at
/// 1-based position `j` may rank above its parent; `j`'s children must
/// rank no higher than `j`'s parent. Sifting up from `j` restores the
/// heap property from such a state.
pub open spec fn view_sift_up_ready<T>(r: spec_fn(T, T) -> bool, v: Seq<T>, j: int) -> bool {
    &&& (forall|k: int| #![trigger v[k]] 1 <= k < v.len() && k != j - 1 ==> !r(v[k], v[(k - 1) / 2]))
    &&& (2 <= j ==> {
        &&& (2 * j <= v.len() ==> !r(v[2 * j - 1], v[j / 2 - 1]))
        &&& (2 * j + 1 <= v.len() ==> !r(v[2 * j], v[j / 2 - 1]))
    })
}

/// The heap property over the live elements, except that the children of
/// 1-based position `j` may rank above it; they must still rank no
/// higher than `j`'s parent. Sifting down from `j` restores the heap
/// property from such a state.
pub open spec fn view_sift_down_ready<T>(r: spec_fn(T, T) -> bool, v: Seq<T>, j: int) -> bool {
    &&& (forall|k: int|
        #![trigger v[k]]
        1 <= k < v.len() && (k + 1) / 2 != j ==> !r(v[k], v[(k - 1) / 2]))
    &&& (2 <= j ==> {
        &&& (2 * j <= v.len() ==> !r(v[2 * j - 1], v[j / 2 - 1]))
        &&& (2 * j + 1 <= v.len() ==> !r(v[2 * j], v[j / 2 - 1]))
    })
}

/// The 1-based position of the child of position `j` that a sift-down
/// step inspects: the higher-ranking of the two live children, or the
/// left child when it is the only one.
pub open spec fn view_chosen_child<T>(r: spec_fn(T, T) -> bool, v: Seq<T>, j: int) -> int {
    if 2 * j + 1 <= v.len() && !r(v[2 * j - 1], v[2 * j]) {
        2 * j + 1
    } else {
        2 * j
    }
}

/// The live elements after sifting the element at 1-based position `j`
/// down toward the leaves along the higher-ranking children, swapping
/// whenever the inspected child ranks strictly above it.
pub open spec fn view_sift_down<T>(r: spec_fn(T, T) -> bool, v: Seq<T>, j: int) -> Seq<T>
    decreases v.len() - j,
{
    if j < 1 || 2 * j > v.len() {
        v
    } else {
        let c = view_chosen_child(r, v, j);
        if r(v[c - 1], v[j - 1]) {
            view_sift_down(r, v.update(j - 1, v[c - 1]).update(c - 1, v[j - 1]), c)
        } else {
            view_sift_down(r, v, c)
        }
    }
}

/// The live elements after sifting the element at 1-based position `j`
/// up toward the root, stopping at the first parent it does not outrank.
pub open spec fn view_sift_up<T>(r: spec_fn(T, T) -> bool, v: Seq<T>, j: int) -> Seq<T>
    decreases j,
{
    if j < 2 || j > v.len() {
        v
    } else if r(v[j - 1], v[j / 2 - 1]) {
        view_sift_up(r, v.update(j - 1, v[j / 2 - 1]).update(j / 2 - 1, v[j - 1]), j / 2)
    } else {
        v
    }
}

/// Readiness over the live elements carries over to readiness over the
/// 1-based storage.
proof fn lemma_ready_bridge<T>(r: spec_fn(T, T) -> bool, s: Seq<T>, count: int, j: int)
    requires
        s.len() == count + 1,
        1 <= j <= count,
    ensures
        view_sift_up_ready(r, s.subrange(1, s.len() as int), j) ==> heap_sift_up_ready(
            r,
            s,
            count,
            j,
        ),
        view_sift_down_ready(r, s.subrange(1, s.len() as int), j) ==> heap_sift_down_ready(
            r,
            s,
            count,
            j,
        ),
{
    let v = s.subrange(1, s.len() as int);
    assert(v.len() == count);
    if view_sift_up_ready(r, v, j) {
        assert forall|i: int| #![trigger s[i]] 2 <= i <= count && i != j implies !r(
            s[i],
            s[i / 2],
        ) by {
            let k = i - 1;
            assert(v[k] == s[i]);
            assert((k - 1) / 2 + 1 == i / 2);
            assert(v[(k - 1) / 2] == s[i / 2]);
            assert(!r(v[k], v[(k - 1) / 2]));
        }
        if 2 <= j {
            if 2 * j <= count {
                assert(v[2 * j - 1] == s[2 * j]);
                assert(v[j / 2 - 1] == s[j / 2]);
            }
            if 2 * j + 1 <= count {
                assert(v[2 * j] == s[2 * j + 1]);
                assert(v[j / 2 - 1] == s[j / 2]);
            }
        }
    }
    if view_sift_down_ready(r, v, j) {
        assert forall|i: int| #![trigger s[i]] 2 <= i <= count && i / 2 != j implies !r(
            s[i],
            s[i / 2],
        ) by {
            let k = i - 1;
            assert(v[k] == s[i]);
            assert((k + 1) / 2 == i / 2);
            assert((k - 1) / 2 + 1 == i / 2);
            assert(v[(k - 1) / 2] == s[i / 2]);
            assert(!r(v[k], v[(k - 1) / 2]));
        }
        if 2 <= j {
            if 2 * j <= count {
                assert(v[2 * j - 1] == s[2 * j]);
                assert(v[j / 2 - 1] == s[j / 2]);
            }
            if 2 * j + 1 <= count {
                assert(v[2 * j] == s[2 * j + 1]);
                assert(v[j / 2 - 1] == s[j / 2]);
            }
        }
    }
}

proof fn lemma_swo_irreflexive<T>(r: spec_fn(T, T) -> bool, a: T)
    requires
        strict_weak_order(r),
    ensures
        !r(a, a),
{
    if r(a, a) {
        assert(!r(a, a));
    }
}

proof fn lemma_swo_neg_trans<T>(r: spec_fn(T, T) -> bool, a: T, b: T, c: T)
    requires
        strict_weak_order(r),
        !r(a, b),
        !r(b, c),
    ensures
        !r(a, c),
{
    if r(a, c) {
        assert(r(a, b) || r(b, c));
    }
}

/// Swapping two positions of a sequence keeps its multiset of elements.
proof fn lemma_swap_multiset<T>(s: Seq<T>, i: int, j: int)
    requires
        0 <= i < s.len(),
        0 <= j < s.len(),
        i != j,
    ensures
        s.update(i, s[j]).update(j, s[i]).to_multiset() == s.to_multiset(),
{
    broadcast use vstd::seq_lib::group_to_multiset_ensures;

    vstd::seq_lib::to_multiset_update(s, i, s[j]);
    let s1 = s.update(i, s[j]);
    vstd::seq_lib::to_multiset_update(s1, j, s[i]);
    assert(s1[j] == s[j]);
    assert(s.contains(s[i]));
    assert(s.to_multiset().count(s[i]) > 0);
    assert(s.contains(s[j]));
    assert(s.to_multiset().count(s[j]) > 0);
    assert(s1.to_multiset() == s.to_multiset().insert(s[j]).remove(s[i]));
    assert(s1.update(j, s[i]).to_multiset() =~= s.to_multiset());
}

/// One sift-up swap at position `j` leaves the state ready to sift up
/// from the parent position.
proof fn lemma_sift_up_swap<T>(r: spec_fn(T, T) -> bool, s: Seq<T>, count: int, j: int)
    requires
        strict_weak_order(r),
        s.len() == count + 1,
        2 <= j <= count,
        heap_sift_up_ready(r, s, count, j),
        r(s[j], s[j / 2]),
    ensures
        heap_sift_up_ready(r, s.update(j, s[j / 2]).update(j / 2, s[j]), count, j / 2),
{
    let p = j / 2;
    let t = s.update(j, s[p]).update(p, s[j]);
    assert forall|i: int| #![trigger t[i]] 2 <= i <= count && i != p implies !r(t[i], t[i / 2]) by {
        if i == j {
            assert(t[j] == s[p] && t[p] == s[j]);
            assert(!r(s[p], s[j]));
        } else if i / 2 == j {
            assert(t[i] == s[i] && t[j] == s[p]);
            if r(s[i], s[p]) {
                assert(r(s[i], s[j]) || r(s[j], s[p]));
                assert(!r(s[i], s[j]));
            }
        } else if i / 2 == p {
            assert(t[i] == s[i] && t[p] == s[j]);
            if r(s[i], s[j]) {
                assert(r(s[j], s[p]));
                assert(r(s[i], s[p]));
                assert(!r(s[i], s[p]));
            }
        } else {
            assert(t[i] == s[i] && t[i / 2] == s[i / 2]);
        }
    }
    if 2 <= p {
        assert(!r(s[p], s[p / 2]));
        assert(t[p / 2] == s[p / 2]);
        if 2 * p <= count {
            let c = 2 * p;
            if c == j {
                assert(t[c] == s[p]);
            } else {
                assert(t[c] == s[c]);
                assert(!r(s[c], s[p]));
                lemma_swo_neg_trans(r, s[c], s[p], s[p / 2]);
            }
            assert(!r(t[c], t[p / 2]));
        }
        if 2 * p + 1 <= count {
            let c = 2 * p + 1;
            if c == j {
                assert(t[c] == s[p]);
            } else {
                assert(t[c] == s[c]);
                assert(!r(s[c], s[p]));
                lemma_swo_neg_trans(r, s[c], s[p], s[p / 2]);
            }
            assert(!r(t[c], t[p / 2]));
        }
    }
}

/// When the element at `j` does not rank above its parent, readiness to
/// sift up from `j` already means the whole heap property holds.
proof fn lemma_sift_up_stop<T>(r: spec_fn(T, T) -> bool, s: Seq<T>, count: int, j: int)
    requires
        s.len() == count + 1,
        1 <= j <= count,
        heap_sift_up_ready(r, s, count, j),
        2 <= j ==> !r(s[j], s[j / 2]),
    ensures
        heap_ordered(r, s, count),
{
    assert forall|i: int| #![trigger s[i]] 2 <= i <= count implies !r(s[i], s[i / 2]) by {
        if i != j {
        }
    }
}

/// One sift-down step from position `j` toward the chosen child `c`:
/// after swapping (when the child ranks above `j`) or standing pat, the
/// state is ready to sift down from `c`.
proof fn lemma_sift_down_step<T>(r: spec_fn(T, T) -> bool, s: Seq<T>, count: int, j: int, c: int)
    requires
        strict_weak_order(r),
        s.len() == count + 1,
        1 <= j,
        2 * j <= count,
        c == 2 * j || c == 2 * j + 1,
        c <= count,
        c == 2 * j + 1 ==> !r(s[2 * j], s[2 * j + 1]),
        2 * j + 1 <= count && c == 2 * j ==> r(s[2 * j], s[2 * j + 1]),
        heap_sift_down_ready(r, s, count, j),
    ensures
        r(s[c], s[j]) ==> heap_sift_down_ready(
            r,
            s.update(j, s[c]).update(c, s[j]),
            count,
            c,
        ),
        !r(s[c], s[j]) ==> heap_sift_down_ready(r, s, count, c),
{
    let sib = if c == 2 * j { 2 * j + 1 } else { 2 * j };
    if r(s[c], s[j]) {
        let t = s.update(j, s[c]).update(c, s[j]);
        assert forall|i: int|
            #![trigger t[i]]
            2 <= i <= count && i / 2 != c implies !r(t[i], t[i / 2]) by {
            if i == j {
                assert(2 <= j);
                assert(t[j] == s[c] && t[j / 2] == s[j / 2]);
                assert(!r(s[c], s[j / 2]));
            } else if i == c {
                assert(t[c] == s[j] && t[j] == s[c]);
                assert(!r(s[j], s[c]));
            } else if i == sib && sib <= count {
                assert(t[sib] == s[sib] && t[j] == s[c]);
                if r(s[sib], s[c]) {
                    if c == 2 * j {
                        assert(r(s[c], s[sib]));
                        assert(!r(s[sib], s[c]));
                    } else {
                        assert(!r(s[sib], s[c]));
                    }
                }
            } else if i / 2 == j {
                assert(t[i] == s[i] && t[j] == s[c]);
                assert(i == sib || i == c);
            } else {
                assert(t[i] == s[i] && t[i / 2] == s[i / 2]);
            }
        }
        assert(t[c / 2] == s[c]);
        if 2 * c <= count {
            let g = 2 * c;
            assert(g != j && g != c && g / 2 == c);
            assert(t[g] == s[g]);
            assert(!r(s[g], s[c]));
            assert(!r(t[g], t[c / 2]));
        }
        if 2 * c + 1 <= count {
            let g = 2 * c + 1;
            assert(g != j && g != c && g / 2 == c);
            assert(t[g] == s[g]);
            assert(!r(s[g], s[c]));
            assert(!r(t[g], t[c / 2]));
        }
    } else {
        assert forall|i: int|
            #![trigger s[i]]
            2 <= i <= count && i / 2 != c implies !r(s[i], s[i / 2]) by {
            if i == c {
                assert(!r(s[c], s[j]));
            } else if i == sib && sib <= count {
                if c == 2 * j {
                    assert(r(s[c], s[sib]));
                    if r(s[sib], s[j]) {
                        assert(r(s[c], s[j]));
                    }
                } else {
                }
            } else {
            }
        }
        if 2 * c <= count {
            let g = 2 * c;
            assert(g / 2 == c);
            assert(!r(s[g], s[c]));
            lemma_swo_neg_trans(r, s[g], s[c], s[j]);
            assert(!r(s[g], s[c / 2]));
        }
        if 2 * c + 1 <= count {
            let g = 2 * c + 1;
            assert(g / 2 == c);
            assert(!r(s[g], s[c]));
            lemma_swo_neg_trans(r, s[g], s[c], s[j]);
            assert(!r(s[g], s[c / 2]));
        }
    }
}

/// With no live children at position `j`, readiness to sift down from
/// `j` already means the whole heap property holds.
proof fn lemma_sift_down_stop<T>(r: spec_fn(T, T) -> bool, s: Seq<T>, count: int, j: int)
    requires
        s.len() == count + 1,
        1 <= j,
        2 * j > count,
        heap_sift_down_ready(r, s, count, j),
    ensures
        heap_ordered(r, s, count),
{
    assert forall|i: int| #![trigger s[i]] 2 <= i <= count implies !r(s[i], s[i / 2]) by {
        assert(i / 2 != j);
    }
}

/// The multiset of a non-empty storage sequence is its first element
/// plus the multiset of the rest.
proof fn lemma_split_first_multiset<T>(s: Seq<T>)
    requires
        s.len() >= 1,
    ensures
        s.to_multiset() == s.subrange(1, s.len() as int).to_multiset().insert(s[0]),
{
    broadcast use vstd::seq_lib::group_to_multiset_ensures;

    let rest = s.subrange(1, s.len() as int);
    assert(s =~= seq![s[0]] + rest);
    vstd::seq_lib::lemma_multiset_commutative(seq![s[0]], rest);
    assert(seq![s[0]] =~= Seq::<T>::empty().push(s[0]));
    assert(seq![s[0]].to_multiset() =~= Multiset::<T>::empty().insert(s[0]));
    assert((seq![s[0]] + rest).to_multiset() =~= rest.to_multiset().insert(s[0]));
}

/// An array-backed binary heap with a pluggable ordering predicate.
#[derive(Clone)]
#[verifier::reject_recursive_types(T)]
pub struct Heap<T, F> where T: Default + Copy, F: Fn(&T, &T) -> bool {
    count: usize,
    items: Vec<T>,
    comparator: F,
    rel: Ghost<spec_fn(T, T) -> bool>,
}

impl<T, F> Heap<T, F> where T: Default + Copy, F: Fn(&T, &T) -> bool {
    /// The relation that the heap's predicate decides.
    pub closed spec fn relation(self) -> spec_fn(T, T) -> bool {
        self.rel@
    }

    /// The stored comparison predicate.
    pub closed spec fn predicate(self) -> F {
        self.comparator
    }

    /// Well-formed: storage is the sentinel plus `count` live elements,
    /// and the predicate decides a strict weak order.
    pub closed spec fn wf(self) -> bool {
        &&& self.items@.len() == self.count + 1
        &&& decided_by(self.comparator, self.rel@)
        &&& strict_weak_order(self.rel@)
    }

    /// The heap property under the decided relation.
    pub closed spec fn ordered(self) -> bool {
        heap_ordered(self.rel@, self.items@, self.count as int)
    }

    /// Shared constructor carrying the decided relation as ghost data.
    fn new_with(comparator: F, Ghost(r): Ghost<spec_fn(T, T) -> bool>) -> (h: Self)
        requires
            decided_by(comparator, r),
            strict_weak_order(r),
        ensures
            h.wf(),
            h.ordered(),
            h@ == Seq::<T>::empty(),
            h.relation() == r,
            h.predicate() == comparator,
    {
        let mut items: Vec<T> = Vec::new();
        items.push(T::default());
        let h = Heap { count: 0, items, comparator, rel: Ghost(r) };
        proof {
            assert(h@ =~= Seq::<T>::empty());
        }
        h
    }

    /// Create an empty heap around a comparison predicate, which must
    /// decide a strict weak order, as `<` and `>` of a total order and
    /// any comparison through a key do.
    pub fn new(comparator: F) -> (h: Self)
        requires
            exists|r: spec_fn(T, T) -> bool|
                decided_by(comparator, r) && #[trigger] strict_weak_order(r),
        ensures
            h.wf(),
            h.ordered(),
            h@ == Seq::<T>::empty(),
            h.predicate() == comparator,
            decided_by(comparator, h.relation()),
            strict_weak_order(h.relation()),
    {
        let ghost r = choose|r: spec_fn(T, T) -> bool|
            decided_by(comparator, r) && #[trigger] strict_weak_order(r);
        Self::new_with(comparator, Ghost(r))
    }

    /// The number of live elements.
    pub fn len(&self) -> (l: usize)
        requires
            self.wf(),
        ensures
            l == self@.len(),
    {
        self.count
    }

    /// Whether the heap holds no element.
    pub fn is_empty(&self) -> (e: bool)
        requires
            self.wf(),
        ensures
            e == (self@.len() == 0),
    {
        self.count == 0
    }

    /// Index of the parent of position `idx`.
    fn parent_idx(&self, idx: usize) -> (p: usize)
        ensures
            p == idx / 2,
    {
        idx / 2
    }

    /// Whether position `idx` has a parent among the live positions.
    fn parent_present(&self, idx: usize) -> (b: bool)
        ensures
            b == (idx / 2 > 0),
    {
        self.parent_idx(idx) > 0
    }

    /// Whether position `idx` has at least one live child.
    fn children_present(&self, idx: usize) -> (b: bool)
        requires
            2 * idx <= usize::MAX,
        ensures
            b == (2 * idx <= self.count),
    {
        self.left_child_idx(idx) <= self.count
    }

    /// Index of the left child of position `idx`.
    fn left_child_idx(&self, idx: usize) -> (c: usize)
        requires
            2 * idx <= usize::MAX,
        ensures
            c == 2 * idx,
    {
        idx * 2
    }

    /// Index of the right child of position `idx`.
    fn right_child_idx(&self, idx: usize) -> (c: usize)
        requires
            2 * idx + 1 <= usize::MAX,
        ensures
            c == 2 * idx + 1,
    {
        self.left_child_idx(idx) + 1
    }

    /// The 1-based position of the live child of `idx` that the
    /// predicate ranks higher; with one live child, that child; with
    /// none, the position where a left child would sit. Despite the
    /// name it serves min- and max-ordered heaps alike.
    pub fn smallest_child_idx(&self, idx: usize) -> (c: usize)
        requires
            self.wf(),
            1 <= idx,
            2 * idx + 1 <= usize::MAX,
        ensures
            c == if 2 * idx + 1 <= self@.len() {
                if self.relation()(self@[2 * idx - 1], self@[2 * idx]) {
                    2 * idx
                } else {
                    2 * idx + 1
                }
            } else {
                2 * idx
            },
    {
        if self.right_child_idx(idx) > self.count {
            self.left_child_idx(idx)
        } else {
            let ldx = self.left_child_idx(idx);
            let rdx = self.right_child_idx(idx);
            let a = self.items[ldx];
            let b = self.items[rdx];
            if (self.comparator)(&a, &b) {
                ldx
            } else {
                rdx
            }
        }
    }

    /// Sift the element at position `idx` up toward the root, swapping
    /// while it ranks strictly above its parent.
    fn sift_up(&mut self, start: usize)
        requires
            old(self).wf(),
            1 <= start <= old(self)@.len(),
        ensures
            final(self).wf(),
            final(self).relation() == old(self).relation(),
            final(self).predicate() == old(self).predicate(),
            final(self)@.len() == old(self)@.len(),
            final(self)@.to_multiset() == old(self)@.to_multiset(),
            final(self)@ == view_sift_up(old(self).relation(), old(self)@, start as int),
            heap_sift_up_ready(
                old(self).relation(),
                old(self).items@,
                old(self).count as int,
                start as int,
            ) ==> final(self).ordered(),
            old(self).ordered() ==> *final(self) == *old(self),
    {
        let ghost entry = *self;
        let ghost ready = heap_sift_up_ready(
            self.rel@,
            self.items@,
            self.count as int,
            start as int,
        );
        let mut idx = start;
        let mut stop = false;
        while 2 <= idx && !stop
            invariant
                self.wf(),
                self.count == entry.count,
                self.rel == entry.rel,
                self.comparator == entry.comparator,
                self.items@.len() == entry.items@.len(),
                self.items@.to_multiset() == entry.items@.to_multiset(),
                self.items@[0] == entry.items@[0],
                1 <= idx <= self.count,
                view_sift_up(self.rel@, entry@, start as int) == (if stop {
                    self@
                } else {
                    view_sift_up(self.rel@, self@, idx as int)
                }),
                ready ==> if stop {
                    heap_ordered(self.rel@, self.items@, self.count as int)
                } else {
                    heap_sift_up_ready(self.rel@, self.items@, self.count as int, idx as int)
                },
                entry.ordered() ==> *self == entry && (stop || idx == start),
            decreases idx, (if stop { 0int } else { 1int }),
        {
            let pdx = idx / 2;
            let a = self.items[idx];
            let b = self.items[pdx];
            let c = (self.comparator)(&a, &b);
            proof {
                assert(c == (self.rel@)(a, b));
                assert(self@[idx - 1] == self.items@[idx as int]);
                assert(self@[idx as int / 2 - 1] == self.items@[idx as int / 2]);
            }
            if c {
                proof {
                    if ready {
                        lemma_sift_up_swap(self.rel@, self.items@, self.count as int, idx as int);
                    }
                    if entry.ordered() {
                        assert((self.rel@)(self.items@[idx as int], self.items@[idx as int / 2]));
                        assert(false);
                    }
                }
                let ghost pre = self.items@;
                let ghost pre_view = self@;
                self.items.set(idx, b);
                self.items.set(pdx, a);
                proof {
                    assert(self.items@ == pre.update(idx as int, pre[pdx as int]).update(
                        pdx as int,
                        pre[idx as int],
                    ));
                    lemma_swap_multiset(pre, idx as int, pdx as int);
                    assert(self@ =~= pre_view.update(idx - 1, pre_view[idx as int / 2 - 1]).update(
                        idx as int / 2 - 1,
                        pre_view[idx - 1],
                    ));
                    assert(view_sift_up(self.rel@, pre_view, idx as int) == view_sift_up(
                        self.rel@,
                        self@,
                        idx as int / 2,
                    ));
                }
                idx = pdx;
            } else {
                proof {
                    if ready {
                        lemma_sift_up_stop(self.rel@, self.items@, self.count as int, idx as int);
                    }
                    assert(view_sift_up(self.rel@, self@, idx as int) == self@);
                }
                stop = true;
            }
        }
        proof {
            if ready && !stop {
                lemma_sift_up_stop(self.rel@, self.items@, self.count as int, idx as int);
            }
            if !stop {
                assert(idx == 1);
                assert(view_sift_up(self.rel@, self@, 1) == self@);
            }
            assert(self@ == view_sift_up(self.rel@, entry@, start as int));
            assert(self@ =~= self.items@.subrange(1, self.items@.len() as int));
            if self.count > 0 {
                lemma_split_first_multiset(entry.items@);
                lemma_split_first_multiset(self.items@);
                assert(self@.to_multiset().insert(self.items@[0]) == entry@.to_multiset().insert(
                    entry.items@[0],
                ));
                assert forall|x: T| true implies self@.to_multiset().count(x)
                    == entry@.to_multiset().count(x) by {
                    assert(self@.to_multiset().insert(self.items@[0]).count(x) == entry@
                        .to_multiset().insert(entry.items@[0]).count(x));
                }
                assert(self@.to_multiset() =~= entry@.to_multiset());
            } else {
                assert(self@ =~= entry@);
            }
        }
    }

    /// Sift the element at position `idx` down toward the leaves along
    /// the higher-ranking children.
    fn sift_down(&mut self, start: usize)
        requires
            old(self).wf(),
            1 <= start,
        ensures
            final(self).wf(),
            final(self).relation() == old(self).relation(),
            final(self).predicate() == old(self).predicate(),
            final(self)@.len() == old(self)@.len(),
            final(self)@.to_multiset() == old(self)@.to_multiset(),
            final(self)@ == view_sift_down(old(self).relation(), old(self)@, start as int),
            heap_sift_down_ready(
                old(self).relation(),
                old(self).items@,
                old(self).count as int,
                start as int,
            ) ==> final(self).ordered(),
            old(self).ordered() ==> *final(self) == *old(self),
    {
        let ghost entry = *self;
        let ghost ready = heap_sift_down_ready(
            self.rel@,
            self.items@,
            self.count as int,
            start as int,
        );
        let mut idx = start;
        let _n = self.items.len();
        while idx <= self.count / 2
            invariant
                self.wf(),
                self.items@.len() <= usize::MAX,
                self.count == entry.count,
                self.rel == entry.rel,
                self.comparator == entry.comparator,
                self.items@.len() == entry.items@.len(),
                self.items@.to_multiset() == entry.items@.to_multiset(),
                self.items@[0] == entry.items@[0],
                1 <= idx,
                view_sift_down(self.rel@, entry@, start as int) == view_sift_down(
                    self.rel@,
                    self@,
                    idx as int,
                ),
                ready ==> heap_sift_down_ready(self.rel@, self.items@, self.count as int, idx as int),
                entry.ordered() ==> *self == entry,
            decreases self.count - idx,
        {
            proof {
                assert(2 * idx <= self.count) by {
                    assert(idx <= self.count / 2);
                }
            }
            let cdx = self.smallest_child_idx(idx);
            proof {
                assert(cdx == 2 * idx || cdx == 2 * idx + 1);
                assert(cdx <= self.count);
                assert(cdx == view_chosen_child(self.rel@, self@, idx as int));
                assert(self@[cdx - 1] == self.items@[cdx as int]);
                assert(self@[idx - 1] == self.items@[idx as int]);
            }
            let a = self.items[cdx];
            let b = self.items[idx];
            let c = (self.comparator)(&a, &b);
            proof {
                assert(c == (self.rel@)(a, b));
                if ready {
                    lemma_sift_down_step(
                        self.rel@,
                        self.items@,
                        self.count as int,
                        idx as int,
                        cdx as int,
                    );
                }
            }
            if c {
                proof {
                    if entry.ordered() {
                        assert(false);
                    }
                }
                let ghost pre = self.items@;
                let ghost pre_view = self@;
                self.items.set(idx, a);
                self.items.set(cdx, b);
                proof {
                    assert(self.items@ == pre.update(idx as int, pre[cdx as int]).update(
                        cdx as int,
                        pre[idx as int],
                    ));
                    lemma_swap_multiset(pre, idx as int, cdx as int);
                    assert(self@ =~= pre_view.update(idx - 1, pre_view[cdx - 1]).update(
                        cdx - 1,
                        pre_view[idx - 1],
                    ));
                    assert(view_sift_down(self.rel@, pre_view, idx as int) == view_sift_down(
                        self.rel@,
                        self@,
                        cdx as int,
                    ));
                }
            } else {
                proof {
                    assert(view_sift_down(self.rel@, self@, idx as int) == view_sift_down(
                        self.rel@,
                        self@,
                        cdx as int,
                    ));
                }
            }
            idx = cdx;
        }
        proof {
            if ready {
                lemma_sift_down_stop(self.rel@, self.items@, self.count as int, idx as int) ;
            }
            assert(2 * idx > self@.len());
            assert(view_sift_down(self.rel@, self@, idx as int) == self@);
            assert(self@ == view_sift_down(self.rel@, entry@, start as int));
            assert(self@ =~= self.items@.subrange(1, self.items@.len() as int));
            if self.count > 0 {
                lemma_split_first_multiset(entry.items@);
                lemma_split_first_multiset(self.items@);
                assert forall|x: T| true implies self@.to_multiset().count(x)
                    == entry@.to_multiset().count(x) by {
                    assert(self@.to_multiset().insert(self.items@[0]).count(x) == entry@
                        .to_multiset().insert(entry.items@[0]).count(x));
                }
                assert(self@.to_multiset() =~= entry@.to_multiset());
            } else {
                assert(self@ =~= entry@);
            }
        }
    }

    /// Append a value and sift it up: the heap grows by exactly that
    /// value and the heap property is preserved.
    pub fn add(&mut self, value: T)
        requires
            old(self).wf(),
            old(self)@.len() < usize::MAX - 1,
        ensures
            final(self).wf(),
            final(self).relation() == old(self).relation(),
            final(self).predicate() == old(self).predicate(),
            final(self)@.len() == old(self)@.len() + 1,
            final(self)@.to_multiset() == old(self)@.to_multiset().insert(value),
            final(self)@ == view_sift_up(
                old(self).relation(),
                old(self)@.push(value),
                old(self)@.len() + 1 as int,
            ),
            old(self).ordered() ==> final(self).ordered(),
    {
        self.count = self.count + 1;
        self.items.push(value);
        proof {
            broadcast use vstd::seq_lib::group_to_multiset_ensures;

            assert(self.items@ == old(self).items@.push(value));
            assert(self@ =~= old(self)@.push(value));
            assert(self@.to_multiset() =~= old(self)@.to_multiset().insert(value));
            if old(self).ordered() {
                assert forall|i: int|
                    #![trigger self.items@[i]]
                    2 <= i <= self.count && i != self.count implies !(self.rel@)(
                    self.items@[i],
                    self.items@[i / 2],
                ) by {
                    assert(self.items@[i] == old(self).items@[i]);
                    assert(self.items@[i / 2] == old(self).items@[i / 2]);
                }
                assert(2 * self.count > self.count);
                assert(heap_sift_up_ready(
                    self.rel@,
                    self.items@,
                    self.count as int,
                    self.count as int,
                ));
            }
        }
        let idx = self.count;
        self.sift_up(idx);
    }

    /// Shared removal: swap the element at `idx` with the last live
    /// element, shrink, and when the root was removed restore the heap
    /// property by sifting down.
    fn remove_at(&mut self, idx: usize) -> (removed: Option<T>)
        requires
            old(self).wf(),
            1 <= idx,
        ensures
            final(self).wf(),
            final(self).relation() == old(self).relation(),
            final(self).predicate() == old(self).predicate(),
            idx > old(self)@.len() ==> removed is None && *final(self) == *old(self),
            idx <= old(self)@.len() ==> {
                &&& removed == Some(old(self)@[idx - 1])
                &&& final(self)@.len() == old(self)@.len() - 1
                &&& final(self)@.to_multiset() == old(self)@.to_multiset().remove(
                    old(self)@[idx - 1],
                )
                &&& (old(self).ordered() && idx == 1 ==> final(self).ordered())
                &&& (idx == 1 ==> final(self)@ == view_sift_down(
                    old(self).relation(),
                    old(self)@.update(0, old(self)@[old(self)@.len() - 1]).drop_last(),
                    1,
                ))
                &&& (idx >= 2 ==> final(self)@ == old(self)@.update(
                    idx - 1,
                    old(self)@[old(self)@.len() - 1],
                ).drop_last())
            },
    {
        if idx > self.count {
            return None;
        }
        let ghost entry = *self;
        let a = self.items[idx];
        let last = self.count;
        let b = self.items[last];
        self.items.set(idx, b);
        self.items.set(last, a);
        let removed = self.items.pop().unwrap();
        self.count = self.count - 1;
        proof {
            broadcast use vstd::seq_lib::group_to_multiset_ensures;

            assert(removed == a);
            let pre = entry.items@;
            let swapped = pre.update(idx as int, pre[last as int]).update(
                last as int,
                pre[idx as int],
            );
            assert(self.items@ =~= swapped.drop_last());
            if idx < last {
                lemma_swap_multiset(pre, idx as int, last as int);
            } else {
                assert(swapped =~= pre);
            }
            assert(swapped.to_multiset() == pre.to_multiset());
            assert(swapped =~= self.items@.push(a));
            assert(self.items@.push(a).to_multiset() == self.items@.to_multiset().insert(a));
            lemma_split_first_multiset(pre);
            lemma_split_first_multiset(self.items@);
            assert(pre.to_multiset().count(pre[idx as int]) > 0) by {
                assert(pre.contains(pre[idx as int]));
            }
            assert(self@ =~= self.items@.subrange(1, self.items@.len() as int));
            assert(entry@.to_multiset().count(entry@[idx - 1]) > 0) by {
                assert(entry@.contains(entry@[idx - 1]));
            }
            assert(self@.to_multiset() =~= entry@.to_multiset().remove(entry@[idx - 1])) by {
                assert(self.items@.to_multiset().insert(a) == pre.to_multiset());
                assert(self@.to_multiset().insert(self.items@[0]).insert(a) == entry@.to_multiset()
                    .insert(entry.items@[0]));
                assert forall|x: T| true implies self@.to_multiset().count(x) == entry@
                    .to_multiset().remove(entry@[idx - 1]).count(x) by {
                    assert(self@.to_multiset().insert(self.items@[0]).insert(a).count(x) == entry@
                        .to_multiset().insert(entry.items@[0]).count(x));
                }
            }
            assert(self@ =~= entry@.update(idx - 1, entry@[entry@.len() - 1]).drop_last());
            if entry.ordered() && idx == 1 {
                assert forall|i: int|
                    #![trigger self.items@[i]]
                    2 <= i <= self.count && i / 2 != 1 implies !(self.rel@)(
                    self.items@[i],
                    self.items@[i / 2],
                ) by {
                    assert(self.items@[i] == entry.items@[i]);
                    assert(self.items@[i / 2] == entry.items@[i / 2]);
                }
                assert(heap_sift_down_ready(self.rel@, self.items@, self.count as int, 1));
            }
        }
        if idx == 1 {
            self.sift_down(1);
        }
        Some(removed)
    }

    /// Remove and return the element at 1-based position `idx` of a
    /// min-ordered heap, or nothing when `idx` exceeds the element
    /// count, leaving the heap unchanged. Only removal at the root
    /// re-establishes the heap property; removing an interior position
    /// deliberately does not re-heapify it.
    pub fn delete_min_heap(&mut self, idx: usize) -> (removed: Option<T>)
        requires
            old(self).wf(),
            1 <= idx,
        ensures
            final(self).wf(),
            final(self).relation() == old(self).relation(),
            final(self).predicate() == old(self).predicate(),
            idx > old(self)@.len() ==> removed is None && *final(self) == *old(self),
            idx <= old(self)@.len() ==> {
                &&& removed == Some(old(self)@[idx - 1])
                &&& final(self)@.len() == old(self)@.len() - 1
                &&& final(self)@.to_multiset() == old(self)@.to_multiset().remove(
                    old(self)@[idx - 1],
                )
                &&& (old(self).ordered() && idx == 1 ==> final(self).ordered())
                &&& (idx == 1 ==> final(self)@ == view_sift_down(
                    old(self).relation(),
                    old(self)@.update(0, old(self)@[old(self)@.len() - 1]).drop_last(),
                    1,
                ))
                &&& (idx >= 2 ==> final(self)@ == old(self)@.update(
                    idx - 1,
                    old(self)@[old(self)@.len() - 1],
                ).drop_last())
            },
    {
        self.remove_at(idx)
    }

    /// Remove and return the element at 1-based position `idx` of a
    /// max-ordered heap; behaves exactly as `delete_min_heap`.
    pub fn delete_max_heap(&mut self, idx: usize) -> (removed: Option<T>)
        requires
            old(self).wf(),
            1 <= idx,
        ensures
            final(self).wf(),
            final(self).relation() == old(self).relation(),
            final(self).predicate() == old(self).predicate(),
            idx > old(self)@.len() ==> removed is None && *final(self) == *old(self),
            idx <= old(self)@.len() ==> {
                &&& removed == Some(old(self)@[idx - 1])
                &&& final(self)@.len() == old(self)@.len() - 1
                &&& final(self)@.to_multiset() == old(self)@.to_multiset().remove(
                    old(self)@[idx - 1],
                )
                &&& (old(self).ordered() && idx == 1 ==> final(self).ordered())
                &&& (idx == 1 ==> final(self)@ == view_sift_down(
                    old(self).relation(),
                    old(self)@.update(0, old(self)@[old(self)@.len() - 1]).drop_last(),
                    1,
                ))
                &&& (idx >= 2 ==> final(self)@ == old(self)@.update(
                    idx - 1,
                    old(self)@[old(self)@.len() - 1],
                ).drop_last())
            },
    {
        self.remove_at(idx)
    }

    /// Sift the element at position `idx` down toward the leaves; a
    /// position beyond the element count is a no-op, a heap that already
    /// satisfies the heap property is left unchanged, and a heap whose
    /// only disorder is below `idx` is restored to the heap property.
    pub fn heapify_down(&mut self, idx: usize)
        requires
            old(self).wf(),
            1 <= idx,
        ensures
            final(self).wf(),
            final(self).relation() == old(self).relation(),
            final(self).predicate() == old(self).predicate(),
            final(self)@.len() == old(self)@.len(),
            final(self)@.to_multiset() == old(self)@.to_multiset(),
            idx > old(self)@.len() ==> *final(self) == *old(self),
            idx <= old(self)@.len() ==> final(self)@ == view_sift_down(
                old(self).relation(),
                old(self)@,
                idx as int,
            ),
            idx <= old(self)@.len() && view_sift_down_ready(
                old(self).relation(),
                old(self)@,
                idx as int,
            ) ==> final(self).ordered(),
            old(self).ordered() ==> *final(self) == *old(self),
    {
        if idx > self.count {
            return;
        }
        proof {
            if view_sift_down_ready(self.rel@, self@, idx as int) {
                lemma_ready_bridge(self.rel@, self.items@, self.count as int, idx as int);
            }
        }
        self.sift_down(idx);
    }

    /// Sift the element at position `idx` up toward the root; a
    /// position beyond the element count is a no-op, as is position 0,
    /// which has no parent. A heap that already satisfies the heap
    /// property is left unchanged, and a heap whose only disorder is at
    /// `idx` itself is restored to the heap property.
    pub fn heapify_up(&mut self, idx: usize)
        requires
            old(self).wf(),
        ensures
            final(self).wf(),
            final(self).relation() == old(self).relation(),
            final(self).predicate() == old(self).predicate(),
            final(self)@.len() == old(self)@.len(),
            final(self)@.to_multiset() == old(self)@.to_multiset(),
            idx > old(self)@.len() || idx < 1 ==> *final(self) == *old(self),
            idx <= old(self)@.len() ==> final(self)@ == view_sift_up(
                old(self).relation(),
                old(self)@,
                idx as int,
            ),
            idx <= old(self)@.len() && view_sift_up_ready(
                old(self).relation(),
                old(self)@,
                idx as int,
            ) ==> final(self).ordered(),
            old(self).ordered() ==> *final(self) == *old(self),
    {
        if idx > self.count {
            return;
        }
        if idx < 1 {
            proof {
                if view_sift_up_ready(self.rel@, self@, idx as int) {
                    assert forall|k: int| #![trigger self@[k]] 1 <= k < self@.len() implies !(
                    self.rel@)(self@[k], self@[(k - 1) / 2]) by {
                        assert(k != idx - 1);
                    }
                    self.lemma_ordered_meaning();
                }
            }
            return;
        }
        proof {
            if view_sift_up_ready(self.rel@, self@, idx as int) {
                lemma_ready_bridge(self.rel@, self.items@, self.count as int, idx as int);
            }
        }
        self.sift_up(idx);
    }

    /// Remove and return the root, the element the predicate ranks
    /// highest, restoring the heap property; nothing once the heap is
    /// empty. Repeated calls drain the heap in heap order.
    pub fn next(&mut self) -> (n: Option<T>)
        requires
            old(self).wf(),
        ensures
            final(self).wf(),
            final(self).relation() == old(self).relation(),
            final(self).predicate() == old(self).predicate(),
            old(self)@.len() == 0 ==> n is None && *final(self) == *old(self),
            old(self)@.len() > 0 ==> {
                &&& n == Some(old(self)@[0])
                &&& final(self)@.len() == old(self)@.len() - 1
                &&& final(self)@.to_multiset() == old(self)@.to_multiset().remove(old(self)@[0])
                &&& final(self)@ == view_sift_down(
                    old(self).relation(),
                    old(self)@.update(0, old(self)@[old(self)@.len() - 1]).drop_last(),
                    1,
                )
                &&& (old(self).ordered() ==> final(self).ordered() && (forall|i: int|
                    0 <= i < old(self)@.len() ==> !old(self).relation()(
                        #[trigger] old(self)@[i],
                        old(self)@[0],
                    )))
            },
    {
        if self.count == 0 {
            return None;
        }
        proof {
            if old(self).ordered() {
                self.lemma_top_of_heap();
            }
        }
        self.remove_at(1)
    }

    /// What the closed heap property says over the visible elements:
    /// each one ranks no higher than its parent.
    pub proof fn lemma_ordered_meaning(self)
        requires
            self.wf(),
        ensures
            self.ordered() == view_heap_ordered(self.relation(), self@),
    {
        let s = self.items@;
        let v = self@;
        let count = self.count as int;
        assert(v =~= s.subrange(1, s.len() as int));
        if self.ordered() {
            assert forall|k: int| #![trigger v[k]] 1 <= k < v.len() implies !(self.rel@)(
                v[k],
                v[(k - 1) / 2],
            ) by {
                let i = k + 1;
                assert(s[i] == v[k]);
                assert((k - 1) / 2 + 1 == i / 2);
                assert(v[(k - 1) / 2] == s[i / 2]);
                assert(!(self.rel@)(s[i], s[i / 2]));
            }
        }
        if view_heap_ordered(self.rel@, v) {
            assert forall|i: int| #![trigger s[i]] 2 <= i <= count implies !(self.rel@)(
                s[i],
                s[i / 2],
            ) by {
                let k = i - 1;
                assert(v[k] == s[i]);
                assert((k - 1) / 2 + 1 == i / 2);
                assert(v[(k - 1) / 2] == s[i / 2]);
                assert(!(self.rel@)(v[k], v[(k - 1) / 2]));
            }
        }
    }

    /// Under the heap property the root ranks at least as high as every
    /// element: none ranks strictly above it.
    pub proof fn lemma_top_of_heap(self)
        requires
            self.wf(),
            self.ordered(),
            self@.len() > 0,
        ensures
            forall|i: int| 0 <= i < self@.len() ==> !self.relation()(#[trigger] self@[i], self@[0]),
    {
        assert forall|i: int| 0 <= i < self@.len() implies !self.relation()(
            #[trigger] self@[i],
            self@[0],
        ) by {
            assert(self@[i] == self.items@[i + 1]);
            assert(self@[0] == self.items@[1]);
            self.lemma_root_dominates(i + 1);
        }
    }

    /// The root ranks at least as high as the element at position `i`.
    proof fn lemma_root_dominates(self, i: int)
        requires
            self.wf(),
            self.ordered(),
            1 <= i <= self.count,
        ensures
            !(self.rel@)(self.items@[i], self.items@[1]),
        decreases i,
    {
        if i == 1 {
            lemma_swo_irreflexive(self.rel@, self.items@[1]);
        } else {
            self.lemma_root_dominates(i / 2);
            assert(!(self.rel@)(self.items@[i], self.items@[i / 2]));
            lemma_swo_neg_trans(
                self.rel@,
                self.items@[i],
                self.items@[i / 2],
                self.items@[1],
            );
        }
    }
}

/// The strictly-below and strictly-above relations of a total order are
/// strict weak orders.
proof fn lemma_key_orders_swo<T: TotalOrder>()
    ensures
        strict_weak_order(key_below::<T>()),
        strict_weak_order(key_above::<T>()),
{
    let lo = key_below::<T>();
    let hi = key_above::<T>();
    assert forall|a: T, b: T| #[trigger] lo(a, b) implies !lo(b, a) by {
        if lo(b, a) {
            T::le_antisymmetric(a.key(), b.key());
        }
    }
    assert forall|a: T, b: T, c: T| #[trigger] lo(a, b) && #[trigger] lo(b, c) implies lo(
        a,
        c,
    ) by {
        T::le_transitive(a.key(), b.key(), c.key());
        if a.key() == c.key() {
            T::le_antisymmetric(a.key(), b.key());
        }
    }
    assert forall|a: T, b: T, c: T|
        #![trigger lo(a, b), lo(a, c)]
        #![trigger lo(a, b), lo(c, b)]
        lo(a, b) implies lo(a, c) || lo(c, b) by {
        T::le_total(a.key(), c.key());
        if T::le(c.key(), a.key()) {
            T::le_transitive(c.key(), a.key(), b.key());
            if c.key() == b.key() {
                T::le_antisymmetric(a.key(), b.key());
            }
        } else {
        }
    }
    assert forall|a: T, b: T| #[trigger] hi(a, b) implies !hi(b, a) by {
        if hi(b, a) {
            T::le_antisymmetric(a.key(), b.key());
        }
    }
    assert forall|a: T, b: T, c: T| #[trigger] hi(a, b) && #[trigger] hi(b, c) implies hi(
        a,
        c,
    ) by {
        T::le_transitive(c.key(), b.key(), a.key());
        if a.key() == c.key() {
            T::le_antisymmetric(a.key(), b.key());
        }
    }
    assert forall|a: T, b: T, c: T|
        #![trigger hi(a, b), hi(a, c)]
        #![trigger hi(a, b), hi(c, b)]
        hi(a, b) implies hi(a, c) || hi(c, b) by {
        T::le_total(a.key(), c.key());
        if T::le(a.key(), c.key()) {
            T::le_transitive(b.key(), a.key(), c.key());
            if c.key() == b.key() {
                T::le_antisymmetric(a.key(), b.key());
            }
        } else {
        }
    }
}

/// Create an empty min-heap over a totally ordered element type: the
/// smallest key sits at the root.
pub fn new_min<T: TotalOrder + Default + Copy>() -> (h: Heap<T, impl Fn(&T, &T) -> bool + Clone>)
    ensures
        h.wf(),
        h.ordered(),
        h@ == Seq::<T>::empty(),
        h.relation() == key_below::<T>(),
{
    let cl = |a: &T, b: &T| -> (res: bool)
        ensures
            res == key_below::<T>()(*a, *b),
        {
            let o = a.compare(b);
            proof {
                if match o {
                    Ordering::Greater => true,
                    _ => false,
                } {
                    if key_below::<T>()(*a, *b) {
                        T::le_antisymmetric(a.key(), b.key());
                    }
                }
            }
            match o {
                Ordering::Less => true,
                _ => false,
            }
        };
    proof {
        lemma_key_orders_swo::<T>();
    }
    Heap::new_with(cl, Ghost(key_below::<T>()))
}

/// Create an empty max-heap over a totally ordered element type: the
/// largest key sits at the root.
pub fn new_max<T: TotalOrder + Default + Copy>() -> (h: Heap<T, impl Fn(&T, &T) -> bool + Clone>)
    ensures
        h.wf(),
        h.ordered(),
        h@ == Seq::<T>::empty(),
        h.relation() == key_above::<T>(),
{
    let cl = |a: &T, b: &T| -> (res: bool)
        ensures
            res == key_above::<T>()(*a, *b),
        {
            let o = a.compare(b);
            proof {
                if match o {
                    Ordering::Less => true,
                    _ => false,
                } {
                    if key_above::<T>()(*a, *b) {
                        T::le_antisymmetric(a.key(), b.key());
                    }
                }
            }
            match o {
                Ordering::Greater => true,
                _ => false,
            }
        };
    proof {
        lemma_key_orders_swo::<T>();
    }
    Heap::new_with(cl, Ghost(key_above::<T>()))
}

impl<T, F> View for Heap<T, F> where T: Default + Copy, F: Fn(&T, &T) -> bool {
    type V = Seq<T>;

    closed spec fn view(&self) -> Seq<T> {
        self.items@.subrange(1, self.items@.len() as int)
    }
}

} // verus!
