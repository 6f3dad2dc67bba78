//! A total order on element types, expressed over a mathematical key
//! so that the containers' contracts can speak about stored values.

use vstd::prelude::*;

verus! {

use core::cmp::Ordering;
use vstd::string::StringSliceAdditionalSpecFns;

/// An element type with a total order.
///
/// Each value stands for a mathematical `Key`; `le` orders the keys and
/// `compare` decides that order at run time. The three proof obligations
/// make `le` a genuine total order, which the containers' proofs rely on.
pub trait TotalOrder: Sized {
    /// The mathematical value that ordering and containment contracts speak about.
    type Key;

    /// The key a value stands for.
    spec fn key(self) -> Self::Key;

    /// The order relation on keys.
    spec fn le(a: Self::Key, b: Self::Key) -> bool;

    proof fn le_total(a: Self::Key, b: Self::Key)
        ensures
            Self::le(a, b) || Self::le(b, a),
    ;

    proof fn le_antisymmetric(a: Self::Key, b: Self::Key)
        requires
            Self::le(a, b),
            Self::le(b, a),
        ensures
            a == b,
    ;

    proof fn le_transitive(a: Self::Key, b: Self::Key, c: Self::Key)
        requires
            Self::le(a, b),
            Self::le(b, c),
        ensures
            Self::le(a, c),
    ;

    /// Three-way comparison that decides `le` on the two keys.
    fn compare(&self, other: &Self) -> (o: Ordering)
        ensures
            (match o {
                Ordering::Less => Self::le(self.key(), other.key()) && self.key() != other.key(),
                Ordering::Equal => self.key() == other.key(),
                Ordering::Greater => Self::le(other.key(), self.key()) && self.key() != other.key(),
            }),
    ;
}

/// Strictly-below, derived from the order on keys.
pub open spec fn below<T: TotalOrder>(a: T::Key, b: T::Key) -> bool {
    T::le(a, b) && a != b
}

impl TotalOrder for i32 {
    type Key = i32;

    open spec fn key(self) -> i32 {
        self
    }

    open spec fn le(a: i32, b: i32) -> bool {
        a <= b
    }

    proof fn le_total(a: i32, b: i32) {
    }

    proof fn le_antisymmetric(a: i32, b: i32) {
    }

    proof fn le_transitive(a: i32, b: i32, c: i32) {
    }

    fn compare(&self, other: &Self) -> (o: Ordering) {
        if *self < *other {
            Ordering::Less
        } else if *other < *self {
            Ordering::Greater
        } else {
            Ordering::Equal
        }
    }
}

/// Lexicographic order on byte sequences.
pub open spec fn bytes_le(a: Seq<u8>, b: Seq<u8>) -> bool
    decreases a.len(),
{
    if a.len() == 0 {
        true
    } else if b.len() == 0 {
        false
    } else if a[0] != b[0] {
        a[0] < b[0]
    } else {
        bytes_le(a.drop_first(), b.drop_first())
    }
}

pub proof fn lemma_bytes_le_total(a: Seq<u8>, b: Seq<u8>)
    ensures
        bytes_le(a, b) || bytes_le(b, a),
    decreases a.len(),
{
    if a.len() != 0 && b.len() != 0 && a[0] == b[0] {
        lemma_bytes_le_total(a.drop_first(), b.drop_first());
    }
}

pub proof fn lemma_bytes_le_antisymmetric(a: Seq<u8>, b: Seq<u8>)
    requires
        bytes_le(a, b),
        bytes_le(b, a),
    ensures
        a == b,
    decreases a.len(),
{
    if a.len() == 0 {
        assert(b.len() == 0);
        assert(a =~= b);
    } else {
        assert(b.len() != 0);
        assert(a[0] == b[0]);
        lemma_bytes_le_antisymmetric(a.drop_first(), b.drop_first());
        assert(a.drop_first().len() == b.drop_first().len());
        assert(a.len() == b.len());
        assert forall|i: int| 0 <= i < a.len() implies a[i] == b[i] by {
            if i > 0 {
                assert(a.drop_first()[i - 1] == b.drop_first()[i - 1]);
                assert(a.drop_first()[i - 1] == a[i]);
                assert(b.drop_first()[i - 1] == b[i]);
            }
        }
        assert(a =~= b);
    }
}

pub proof fn lemma_bytes_le_transitive(a: Seq<u8>, b: Seq<u8>, c: Seq<u8>)
    requires
        bytes_le(a, b),
        bytes_le(b, c),
    ensures
        bytes_le(a, c),
    decreases a.len(),
{
    if a.len() != 0 && b.len() != 0 && c.len() != 0 && a[0] == b[0] && b[0] == c[0] {
        lemma_bytes_le_transitive(a.drop_first(), b.drop_first(), c.drop_first());
    }
}

/// When two byte sequences first differ at position `i`, that position
/// decides the lexicographic order.
proof fn lemma_bytes_le_first_diff(a: Seq<u8>, b: Seq<u8>, i: int)
    requires
        0 <= i < a.len(),
        i < b.len(),
        forall|j: int| 0 <= j < i ==> a[j] == b[j],
        a[i] != b[i],
    ensures
        bytes_le(a, b) == (a[i] < b[i]),
    decreases i,
{
    if i > 0 {
        assert(a[0] == b[0]);
        assert forall|j: int| 0 <= j < i - 1 implies a.drop_first()[j] == b.drop_first()[j] by {
            assert(a.drop_first()[j] == a[j + 1]);
            assert(b.drop_first()[j] == b[j + 1]);
        }
        assert(a.drop_first()[i - 1] == a[i]);
        assert(b.drop_first()[i - 1] == b[i]);
        lemma_bytes_le_first_diff(a.drop_first(), b.drop_first(), i - 1);
    }
}

/// When one sequence is a prefix of the other, the shorter comes first.
proof fn lemma_bytes_le_prefix(a: Seq<u8>, b: Seq<u8>)
    requires
        forall|j: int| 0 <= j < a.len() && j < b.len() ==> a[j] == b[j],
    ensures
        bytes_le(a, b) == (a.len() <= b.len()),
        a.len() == b.len() ==> a == b,
    decreases a.len(),
{
    if a.len() != 0 && b.len() != 0 {
        assert forall|j: int|
            0 <= j < a.drop_first().len() && j < b.drop_first().len() implies a.drop_first()[j]
            == b.drop_first()[j] by {
            assert(a.drop_first()[j] == a[j + 1]);
            assert(b.drop_first()[j] == b[j + 1]);
        }
        lemma_bytes_le_prefix(a.drop_first(), b.drop_first());
        if a.len() == b.len() {
            assert forall|i: int| 0 <= i < a.len() implies a[i] == b[i] by {
                if i > 0 {
                    assert(a.drop_first()[i - 1] == b.drop_first()[i - 1]);
                }
            }
            assert(a =~= b);
        }
    } else if a.len() == 0 && b.len() == 0 {
        assert(a =~= b);
    }
}

impl TotalOrder for &'static str {
    type Key = Seq<u8>;

    open spec fn key(self) -> Seq<u8> {
        self.spec_bytes()
    }

    open spec fn le(a: Seq<u8>, b: Seq<u8>) -> bool {
        bytes_le(a, b)
    }

    proof fn le_total(a: Seq<u8>, b: Seq<u8>) {
        lemma_bytes_le_total(a, b);
    }

    proof fn le_antisymmetric(a: Seq<u8>, b: Seq<u8>) {
        lemma_bytes_le_antisymmetric(a, b);
    }

    proof fn le_transitive(a: Seq<u8>, b: Seq<u8>, c: Seq<u8>) {
        lemma_bytes_le_transitive(a, b, c);
    }

    fn compare(&self, other: &Self) -> (o: Ordering) {
        let a = self.as_bytes();
        let b = other.as_bytes();
        let n = if a.len() < b.len() {
            a.len()
        } else {
            b.len()
        };
        let mut i: usize = 0;
        while i < n
            invariant
                n <= a@.len(),
                n <= b@.len(),
                n == a@.len() || n == b@.len(),
                i <= n,
                a@ == self.spec_bytes(),
                b@ == other.spec_bytes(),
                forall|j: int| 0 <= j < i ==> a@[j] == b@[j],
            decreases n - i,
        {
            let x = a[i];
            let y = b[i];
            if x != y {
                proof {
                    lemma_bytes_le_first_diff(a@, b@, i as int);
                    lemma_bytes_le_first_diff(b@, a@, i as int);
                }
                if x < y {
                    return Ordering::Less;
                } else {
                    return Ordering::Greater;
                }
            }
            i += 1;
        }
        proof {
            lemma_bytes_le_prefix(a@, b@);
            lemma_bytes_le_prefix(b@, a@);
        }
        if a.len() < b.len() {
            Ordering::Less
        } else if b.len() < a.len() {
            Ordering::Greater
        } else {
            Ordering::Equal
        }
    }
}

} // verus!
