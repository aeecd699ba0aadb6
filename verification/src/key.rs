//! The key and range model: a total-order byte encoding for user keys,
//! serializable range bounds, and the key filters a view query accepts.

use vstd::prelude::*;

use crate::error::Error;

verus! {

/// Byte-lexicographic strict order: `a` is less than `b` when `a` is a
/// strict prefix of `b`, or the first differing byte of `a` is smaller.
pub open spec fn lex_lt(a: Seq<u8>, b: Seq<u8>) -> bool {
    ||| (a.len() < b.len() && a =~= b.take(a.len() as int))
    ||| exists|i: int|
        {
            &&& 0 <= i < a.len()
            &&& i < b.len()
            &&& #[trigger] a[i] < #[trigger] b[i]
            &&& forall|j: int| 0 <= j < i ==> a[j] == b[j]
        }
}

/// Byte-lexicographic order, the order of the underlying tree store.
pub open spec fn lex_le(a: Seq<u8>, b: Seq<u8>) -> bool {
    lex_lt(a, b) || a == b
}

/// The index of the first position where `a` and `b` differ, given
/// that one exists within both sequences.
pub proof fn lemma_lex_first_diff(a: Seq<u8>, b: Seq<u8>) -> (i: int)
    requires
        exists|k: int| 0 <= k < a.len() && k < b.len() && a[k] != b[k],
    ensures
        0 <= i < a.len(),
        i < b.len(),
        a[i] != b[i],
        forall|j: int| 0 <= j < i ==> a[j] == b[j],
    decreases a.len(),
{
    let k = choose|k: int| 0 <= k < a.len() && k < b.len() && a[k] != b[k];
    if a[0] != b[0] {
        0
    } else {
        assert(0 <= k - 1 < a.drop_first().len() && k - 1 < b.drop_first().len()
            && a.drop_first()[k - 1] != b.drop_first()[k - 1]);
        let i0 = lemma_lex_first_diff(a.drop_first(), b.drop_first());
        assert forall|j: int| 0 <= j < i0 + 1 implies a[j] == b[j] by {
            if j > 0 {
                assert(a.drop_first()[j - 1] == b.drop_first()[j - 1]);
            }
        }
        i0 + 1
    }
}

/// Of two byte strings, exactly one of `a < b`, `a == b`, `b < a`
/// holds in the lexicographic order.
pub proof fn lemma_lex_trichotomy(a: Seq<u8>, b: Seq<u8>)
    ensures
        lex_lt(a, b) || a == b || lex_lt(b, a),
        lex_lt(a, b) ==> a != b && !lex_lt(b, a),
        lex_lt(b, a) ==> a != b && !lex_lt(a, b),
{
    let n = if a.len() <= b.len() {
        a.len() as int
    } else {
        b.len() as int
    };
    if exists|k: int| 0 <= k < a.len() && k < b.len() && a[k] != b[k] {
        let i = lemma_lex_first_diff(a, b);
        if a[i] < b[i] {
            assert(lex_lt(a, b));
        } else {
            assert(b[i] < a[i]);
            assert(lex_lt(b, a));
        }
    } else {
        if a.len() == b.len() {
            assert(a =~= b);
        } else if a.len() < b.len() {
            assert(a =~= b.take(a.len() as int));
            assert(lex_lt(a, b));
        } else {
            assert(b =~= a.take(b.len() as int));
            assert(lex_lt(b, a));
        }
    }
    if lex_lt(a, b) {
        lemma_lex_lt_asymmetric(a, b);
    } else if lex_lt(b, a) {
        lemma_lex_lt_asymmetric(b, a);
    }
}

/// The lexicographic order is irreflexive and asymmetric.
pub proof fn lemma_lex_lt_asymmetric(a: Seq<u8>, b: Seq<u8>)
    requires
        lex_lt(a, b),
    ensures
        a != b,
        !lex_lt(b, a),
{
    if a.len() < b.len() && a =~= b.take(a.len() as int) {
        assert(a != b);
        if lex_lt(b, a) {
            if b.len() < a.len() && b =~= a.take(b.len() as int) {
                assert(false);
            } else {
                let i = choose|i: int|
                    {
                        &&& 0 <= i < b.len()
                        &&& i < a.len()
                        &&& #[trigger] b[i] < #[trigger] a[i]
                        &&& forall|j: int| 0 <= j < i ==> b[j] == a[j]
                    };
                assert(a[i] == b.take(a.len() as int)[i]);
                assert(false);
            }
        }
    } else {
        let i = choose|i: int|
            {
                &&& 0 <= i < a.len()
                &&& i < b.len()
                &&& #[trigger] a[i] < #[trigger] b[i]
                &&& forall|j: int| 0 <= j < i ==> a[j] == b[j]
            };
        assert(a[i] != b[i]);
        assert(a != b);
        if lex_lt(b, a) {
            if b.len() < a.len() && b =~= a.take(b.len() as int) {
                assert(b[i] == a[i]);
                assert(false);
            } else {
                let k = choose|k: int|
                    {
                        &&& 0 <= k < b.len()
                        &&& k < a.len()
                        &&& #[trigger] b[k] < #[trigger] a[k]
                        &&& forall|j: int| 0 <= j < k ==> b[j] == a[j]
                    };
                if k < i {
                    assert(a[k] == b[k]);
                    assert(false);
                } else if i < k {
                    assert(b[i] == a[i]);
                    assert(false);
                } else {
                    assert(false);
                }
            }
        }
    }
}

/// The lexicographic order is transitive, also across its reflexive
/// closure.
pub proof fn lemma_lex_lt_le_trans(a: Seq<u8>, b: Seq<u8>, c: Seq<u8>)
    requires
        lex_lt(a, b),
        lex_le(b, c),
    ensures
        lex_lt(a, c),
{
    if b == c {
    } else {
        lemma_lex_lt_trans(a, b, c);
    }
}

/// The lexicographic order is transitive.
pub proof fn lemma_lex_lt_trans(a: Seq<u8>, b: Seq<u8>, c: Seq<u8>)
    requires
        lex_lt(a, b),
        lex_lt(b, c),
    ensures
        lex_lt(a, c),
{
    let ab_prefix = a.len() < b.len() && a =~= b.take(a.len() as int);
    let bc_prefix = b.len() < c.len() && b =~= c.take(b.len() as int);
    if ab_prefix && bc_prefix {
        assert(a =~= c.take(a.len() as int));
        assert(lex_lt(a, c));
    } else if ab_prefix && !bc_prefix {
        let k = choose|k: int|
            {
                &&& 0 <= k < b.len()
                &&& k < c.len()
                &&& #[trigger] b[k] < #[trigger] c[k]
                &&& forall|j: int| 0 <= j < k ==> b[j] == c[j]
            };
        if k < a.len() {
            assert forall|j: int| 0 <= j < k implies a[j] == c[j] by {
                assert(a[j] == b[j]);
            }
            assert(a[k] == b[k]);
            assert(lex_lt(a, c));
        } else {
            assert forall|j: int| 0 <= j < a.len() implies a[j] == c[j] by {
                assert(a[j] == b[j]);
                assert(b[j] == c[j]);
            }
            assert(a.len() < c.len());
            assert(a =~= c.take(a.len() as int));
            assert(lex_lt(a, c));
        }
    } else {
        let i = choose|i: int|
            {
                &&& 0 <= i < a.len()
                &&& i < b.len()
                &&& #[trigger] a[i] < #[trigger] b[i]
                &&& forall|j: int| 0 <= j < i ==> a[j] == b[j]
            };
        if bc_prefix {
            if i < b.len() {
                assert(b[i] == c[i]);
                assert forall|j: int| 0 <= j < i implies a[j] == c[j] by {
                    assert(a[j] == b[j]);
                    assert(b[j] == c[j]);
                }
                assert(lex_lt(a, c));
            }
        } else {
            let k = choose|k: int|
                {
                    &&& 0 <= k < b.len()
                    &&& k < c.len()
                    &&& #[trigger] b[k] < #[trigger] c[k]
                    &&& forall|j: int| 0 <= j < k ==> b[j] == c[j]
                };
            if i <= k {
                assert forall|j: int| 0 <= j < i implies a[j] == c[j] by {
                    assert(a[j] == b[j]);
                    assert(b[j] == c[j]);
                }
                if i < k {
                    assert(a[i] < b[i] && b[i] == c[i]);
                } else {
                    assert(a[i] < b[i] && b[i] < c[i]);
                }
                assert(lex_lt(a, c));
            } else {
                assert forall|j: int| 0 <= j < k implies a[j] == c[j] by {
                    assert(a[j] == b[j]);
                    assert(b[j] == c[j]);
                }
                assert(a[k] == b[k]);
                assert(a[k] < c[k]);
                assert(lex_lt(a, c));
            }
        }
    }
}

/// Compares two byte strings in the lexicographic order.
pub fn lex_compare(a: &Vec<u8>, b: &Vec<u8>) -> (r: KeyOrdering)
    ensures
        r is Less <==> lex_lt(a@, b@),
        r is Equal <==> a@ == b@,
        r is Greater <==> lex_lt(b@, a@),
{
    proof {
        lemma_lex_trichotomy(a@, b@);
    }
    let min: usize = if a.len() <= b.len() {
        a.len()
    } else {
        b.len()
    };
    let mut i: usize = 0;
    while i < min
        invariant
            0 <= i <= min,
            min == if a@.len() <= b@.len() {
                a@.len()
            } else {
                b@.len()
            },
            forall|j: int| 0 <= j < i ==> a@[j] == b@[j],
        decreases min - i,
    {
        if a[i] < b[i] {
            assert(lex_lt(a@, b@));
            proof {
                lemma_lex_trichotomy(a@, b@);
            }
            return KeyOrdering::Less;
        }
        if a[i] > b[i] {
            assert(lex_lt(b@, a@));
            proof {
                lemma_lex_trichotomy(a@, b@);
            }
            return KeyOrdering::Greater;
        }
        i += 1;
    }
    if a.len() == b.len() {
        assert(a@ =~= b@);
        KeyOrdering::Equal
    } else if a.len() < b.len() {
        assert(a@ =~= b@.take(a@.len() as int));
        assert(lex_lt(a@, b@));
        proof {
            lemma_lex_trichotomy(a@, b@);
        }
        KeyOrdering::Less
    } else {
        assert(b@ =~= a@.take(b@.len() as int));
        assert(lex_lt(b@, a@));
        proof {
            lemma_lex_trichotomy(a@, b@);
        }
        KeyOrdering::Greater
    }
}

/// The outcome of comparing two byte keys.
#[derive(Clone, Copy, Debug, PartialEq, Eq, Structural)]
pub enum KeyOrdering {
    /// The first key is smaller.
    Less,
    /// The keys are equal.
    Equal,
    /// The first key is greater.
    Greater,
}

/// The big-endian bytes of a 64-bit integer.
pub open spec fn u64_be_bytes(x: u64) -> Seq<u8> {
    seq![
        (x >> 56) as u8,
        (x >> 48) as u8,
        (x >> 40) as u8,
        (x >> 32) as u8,
        (x >> 24) as u8,
        (x >> 16) as u8,
        (x >> 8) as u8,
        x as u8,
    ]
}

/// The 64-bit integer read from eight big-endian bytes.
pub open spec fn u64_from_be_bytes(s: Seq<u8>) -> u64
    recommends
        s.len() == 8,
{
    (((s[0] as u64) << 56) | ((s[1] as u64) << 48) | ((s[2] as u64) << 40) | ((s[3] as u64) << 32)
        | ((s[4] as u64) << 24) | ((s[5] as u64) << 16) | ((s[6] as u64) << 8) | (s[7] as u64))
        as u64
}

/// Decoding the big-endian bytes of an integer gives the integer back.
pub proof fn lemma_u64_be_round_trip(x: u64)
    ensures
        u64_from_be_bytes(u64_be_bytes(x)) == x,
{
    let s = u64_be_bytes(x);
    assert(((((x >> 56) as u8) as u64) << 56 | (((x >> 48) as u8) as u64) << 48 | (((x >> 40) as u8)
        as u64) << 40 | (((x >> 32) as u8) as u64) << 32 | (((x >> 24) as u8) as u64) << 24 | (((x
        >> 16) as u8) as u64) << 16 | (((x >> 8) as u8) as u64) << 8 | ((x as u8) as u64)) == x)
        by (bit_vector);
}

/// The big-endian encoding preserves the numeric order: the bytes of
/// `x` are lexicographically below the bytes of `y` exactly when
/// `x < y`.
pub proof fn lemma_u64_be_order(x: u64, y: u64)
    ensures
        lex_lt(u64_be_bytes(x), u64_be_bytes(y)) <==> x < y,
{
    let a = u64_be_bytes(x);
    let b = u64_be_bytes(y);
    if x < y {
        let x0: u8 = (x >> 56) as u8;
        let x1: u8 = (x >> 48) as u8;
        let x2: u8 = (x >> 40) as u8;
        let x3: u8 = (x >> 32) as u8;
        let x4: u8 = (x >> 24) as u8;
        let x5: u8 = (x >> 16) as u8;
        let x6: u8 = (x >> 8) as u8;
        let x7: u8 = x as u8;
        let y0: u8 = (y >> 56) as u8;
        let y1: u8 = (y >> 48) as u8;
        let y2: u8 = (y >> 40) as u8;
        let y3: u8 = (y >> 32) as u8;
        let y4: u8 = (y >> 24) as u8;
        let y5: u8 = (y >> 16) as u8;
        let y6: u8 = (y >> 8) as u8;
        let y7: u8 = y as u8;
        assert({
            ||| x0 < y0
            ||| x0 == y0 && x1 < y1
            ||| x0 == y0 && x1 == y1 && x2 < y2
            ||| x0 == y0 && x1 == y1 && x2 == y2 && x3 < y3
            ||| x0 == y0 && x1 == y1 && x2 == y2 && x3 == y3 && x4 < y4
            ||| x0 == y0 && x1 == y1 && x2 == y2 && x3 == y3 && x4 == y4 && x5 < y5
            ||| x0 == y0 && x1 == y1 && x2 == y2 && x3 == y3 && x4 == y4 && x5 == y5 && x6 < y6
            ||| x0 == y0 && x1 == y1 && x2 == y2 && x3 == y3 && x4 == y4 && x5 == y5 && x6 == y6
                && x7 < y7
        }) by (bit_vector)
            requires
                x < y,
                x0 == (x >> 56) as u8,
                x1 == (x >> 48) as u8,
                x2 == (x >> 40) as u8,
                x3 == (x >> 32) as u8,
                x4 == (x >> 24) as u8,
                x5 == (x >> 16) as u8,
                x6 == (x >> 8) as u8,
                x7 == x as u8,
                y0 == (y >> 56) as u8,
                y1 == (y >> 48) as u8,
                y2 == (y >> 40) as u8,
                y3 == (y >> 32) as u8,
                y4 == (y >> 24) as u8,
                y5 == (y >> 16) as u8,
                y6 == (y >> 8) as u8,
                y7 == y as u8,
        ;
        if a[0] < b[0] {
            assert(lex_lt(a, b));
        } else if a[1] < b[1] {
            assert(lex_lt(a, b));
        } else if a[2] < b[2] {
            assert(lex_lt(a, b));
        } else if a[3] < b[3] {
            assert(lex_lt(a, b));
        } else if a[4] < b[4] {
            assert(lex_lt(a, b));
        } else if a[5] < b[5] {
            assert(lex_lt(a, b));
        } else if a[6] < b[6] {
            assert(lex_lt(a, b));
        } else {
            assert(a[7] < b[7]);
            assert(lex_lt(a, b));
        }
    }
    if lex_lt(a, b) {
        let i = choose|i: int|
            {
                &&& 0 <= i < a.len()
                &&& i < b.len()
                &&& #[trigger] a[i] < #[trigger] b[i]
                &&& forall|j: int| 0 <= j < i ==> a[j] == b[j]
            };
        if i == 0 {
            assert(x < y) by (bit_vector)
                requires
                    ((x >> 56) as u8) < ((y >> 56) as u8),
            ;
        } else if i == 1 {
            assert(x < y) by (bit_vector)
                requires
                    ((x >> 56) as u8) == ((y >> 56) as u8),
                    ((x >> 48) as u8) < ((y >> 48) as u8),
            ;
        } else if i == 2 {
            assert(x < y) by (bit_vector)
                requires
                    ((x >> 56) as u8) == ((y >> 56) as u8),
                    ((x >> 48) as u8) == ((y >> 48) as u8),
                    ((x >> 40) as u8) < ((y >> 40) as u8),
            ;
        } else if i == 3 {
            assert(x < y) by (bit_vector)
                requires
                    ((x >> 56) as u8) == ((y >> 56) as u8),
                    ((x >> 48) as u8) == ((y >> 48) as u8),
                    ((x >> 40) as u8) == ((y >> 40) as u8),
                    ((x >> 32) as u8) < ((y >> 32) as u8),
            ;
        } else if i == 4 {
            assert(x < y) by (bit_vector)
                requires
                    ((x >> 56) as u8) == ((y >> 56) as u8),
                    ((x >> 48) as u8) == ((y >> 48) as u8),
                    ((x >> 40) as u8) == ((y >> 40) as u8),
                    ((x >> 32) as u8) == ((y >> 32) as u8),
                    ((x >> 24) as u8) < ((y >> 24) as u8),
            ;
        } else if i == 5 {
            assert(x < y) by (bit_vector)
                requires
                    ((x >> 56) as u8) == ((y >> 56) as u8),
                    ((x >> 48) as u8) == ((y >> 48) as u8),
                    ((x >> 40) as u8) == ((y >> 40) as u8),
                    ((x >> 32) as u8) == ((y >> 32) as u8),
                    ((x >> 24) as u8) == ((y >> 24) as u8),
                    ((x >> 16) as u8) < ((y >> 16) as u8),
            ;
        } else if i == 6 {
            assert(x < y) by (bit_vector)
                requires
                    ((x >> 56) as u8) == ((y >> 56) as u8),
                    ((x >> 48) as u8) == ((y >> 48) as u8),
                    ((x >> 40) as u8) == ((y >> 40) as u8),
                    ((x >> 32) as u8) == ((y >> 32) as u8),
                    ((x >> 24) as u8) == ((y >> 24) as u8),
                    ((x >> 16) as u8) == ((y >> 16) as u8),
                    ((x >> 8) as u8) < ((y >> 8) as u8),
            ;
        } else {
            assert(i == 7);
            assert(x < y) by (bit_vector)
                requires
                    ((x >> 56) as u8) == ((y >> 56) as u8),
                    ((x >> 48) as u8) == ((y >> 48) as u8),
                    ((x >> 40) as u8) == ((y >> 40) as u8),
                    ((x >> 32) as u8) == ((y >> 32) as u8),
                    ((x >> 24) as u8) == ((y >> 24) as u8),
                    ((x >> 16) as u8) == ((y >> 16) as u8),
                    ((x >> 8) as u8) == ((y >> 8) as u8),
                    (x as u8) < (y as u8),
            ;
        }
    }
}

/// A key type that admits a total-order big-endian byte encoding.
pub trait Key: Sized {
    /// The byte encoding of this key.
    spec fn encoded(&self) -> Seq<u8>;

    /// The partial inverse of the encoding.
    spec fn decoded(bytes: Seq<u8>) -> Option<Self>;

    /// The key type's native order.
    spec fn le_spec(&self, other: &Self) -> bool;

    /// Serializes the key to its big-endian byte form.
    fn as_big_endian_bytes(&self) -> (r: Vec<u8>)
        ensures
            r@ == self.encoded(),
    ;

    /// Deserializes a key from its big-endian byte form; bytes that are
    /// no encoding of a key are rejected with a serialization error.
    fn from_big_endian_bytes(bytes: &[u8]) -> (r: Result<Self, Error>)
        ensures
            match r {
                Ok(k) => Self::decoded(bytes@) == Some(k),
                Err(e) => Self::decoded(bytes@) is None && e is Serialization,
            },
    ;

    /// Decoding inverts encoding.
    proof fn lemma_round_trip(&self)
        ensures
            Self::decoded(self.encoded()) == Some(*self),
    ;

    /// The encoding embeds the native order into the byte order.
    proof fn lemma_order_preserving(&self, other: &Self)
        ensures
            lex_le(self.encoded(), other.encoded()) <==> self.le_spec(other),
    ;
}

impl Key for u64 {
    open spec fn encoded(&self) -> Seq<u8> {
        u64_be_bytes(*self)
    }

    open spec fn decoded(bytes: Seq<u8>) -> Option<Self> {
        if bytes.len() == 8 {
            Some(u64_from_be_bytes(bytes))
        } else {
            None
        }
    }

    open spec fn le_spec(&self, other: &Self) -> bool {
        *self <= *other
    }

    fn as_big_endian_bytes(&self) -> (r: Vec<u8>) {
        let x = *self;
        let mut r: Vec<u8> = Vec::new();
        r.push(#[verifier::truncate] ((x >> 56) as u8));
        r.push(#[verifier::truncate] ((x >> 48) as u8));
        r.push(#[verifier::truncate] ((x >> 40) as u8));
        r.push(#[verifier::truncate] ((x >> 32) as u8));
        r.push(#[verifier::truncate] ((x >> 24) as u8));
        r.push(#[verifier::truncate] ((x >> 16) as u8));
        r.push(#[verifier::truncate] ((x >> 8) as u8));
        r.push(#[verifier::truncate] (x as u8));
        assert(r@ =~= u64_be_bytes(x));
        r
    }

    fn from_big_endian_bytes(bytes: &[u8]) -> (r: Result<Self, Error>) {
        if bytes.len() != 8 {
            return Err(Error::Serialization);
        }
        let x: u64 = ((bytes[0] as u64) << 56) | ((bytes[1] as u64) << 48) | ((bytes[2] as u64)
            << 40) | ((bytes[3] as u64) << 32) | ((bytes[4] as u64) << 24) | ((bytes[5] as u64)
            << 16) | ((bytes[6] as u64) << 8) | (bytes[7] as u64);
        Ok(x)
    }

    proof fn lemma_round_trip(&self) {
        lemma_u64_be_round_trip(*self);
    }

    proof fn lemma_order_preserving(&self, other: &Self) {
        lemma_u64_be_order(*self, *other);
        lemma_u64_be_order(*other, *self);
        if self.encoded() == other.encoded() {
            lemma_u64_be_round_trip(*self);
            lemma_u64_be_round_trip(*other);
            assert(u64_from_be_bytes(self.encoded()) == u64_from_be_bytes(other.encoded()));
        }
        if *self == *other {
            assert(self.encoded() =~= other.encoded());
        }
    }
}

/// A sort order for document lists and view queries.
#[derive(Clone, Copy, Debug, PartialEq, Eq, Structural)]
pub enum Sort {
    /// Sort ascending (A -> Z).
    Ascending,
    /// Sort descending (Z -> A).
    Descending,
}

/// How a view query treats possibly stale index contents.
#[derive(Clone, Copy, Debug, PartialEq, Eq, Structural)]
pub enum AccessPolicy {
    /// Bring the view up to date before returning results.
    UpdateBefore,
    /// Return the current contents and enqueue an update afterwards.
    UpdateAfter,
    /// Return the current contents and enqueue nothing.
    NoUpdate,
}

/// A range bound that can be serialized.
#[derive(Clone, Copy, Debug)]
pub enum Bound<T> {
    /// No bound.
    Unbounded,
    /// Bounded by the contained value (inclusive).
    Included(T),
    /// Bounded by the contained value (exclusive).
    Excluded(T),
}

/// A range type that can represent every built-in range form and be
/// serialized.
#[derive(Clone, Copy, Debug)]
pub struct Range<T> {
    /// The start of the range.
    pub start: Bound<T>,
    /// The end of the range.
    pub end: Bound<T>,
}

impl<T> Bound<T> {
    /// Maps the contained value, if any, and returns the resulting bound.
    pub fn map<U, F: Fn(T) -> U>(self, map: F) -> (r: Bound<U>)
        requires
            forall|t: T| map.requires((t,)),
        ensures
            match (self, r) {
                (Bound::Unbounded, Bound::Unbounded) => true,
                (Bound::Included(t), Bound::Included(u)) => map.ensures((t,), u),
                (Bound::Excluded(t), Bound::Excluded(u)) => map.ensures((t,), u),
                _ => false,
            },
    {
        match self {
            Bound::Unbounded => Bound::Unbounded,
            Bound::Included(value) => Bound::Included(map(value)),
            Bound::Excluded(value) => Bound::Excluded(map(value)),
        }
    }

    /// Maps the contained value, if any, from behind a reference.
    pub fn map_ref<U, F: Fn(&T) -> U>(&self, map: F) -> (r: Bound<U>)
        requires
            forall|t: T| map.requires((&t,)),
        ensures
            match (self, r) {
                (Bound::Unbounded, Bound::Unbounded) => true,
                (Bound::Included(t), Bound::Included(u)) => map.ensures((&t,), u),
                (Bound::Excluded(t), Bound::Excluded(u)) => map.ensures((&t,), u),
                _ => false,
            },
    {
        match self {
            Bound::Unbounded => Bound::Unbounded,
            Bound::Included(value) => Bound::Included(map(value)),
            Bound::Excluded(value) => Bound::Excluded(map(value)),
        }
    }
}

impl<T> Range<T> {
    /// Maps each contained bound value with the function provided.
    pub fn map<U, F: Fn(T) -> U>(self, map: F) -> (r: Range<U>)
        requires
            forall|t: T| map.requires((t,)),
        ensures
            match (self.start, r.start) {
                (Bound::Unbounded, Bound::Unbounded) => true,
                (Bound::Included(t), Bound::Included(u)) => map.ensures((t,), u),
                (Bound::Excluded(t), Bound::Excluded(u)) => map.ensures((t,), u),
                _ => false,
            },
            match (self.end, r.end) {
                (Bound::Unbounded, Bound::Unbounded) => true,
                (Bound::Included(t), Bound::Included(u)) => map.ensures((t,), u),
                (Bound::Excluded(t), Bound::Excluded(u)) => map.ensures((t,), u),
                _ => false,
            },
    {
        let Range { start, end } = self;
        let start = match start {
            Bound::Unbounded => Bound::Unbounded,
            Bound::Included(value) => Bound::Included(map(value)),
            Bound::Excluded(value) => Bound::Excluded(map(value)),
        };
        let end = match end {
            Bound::Unbounded => Bound::Unbounded,
            Bound::Included(value) => Bound::Included(map(value)),
            Bound::Excluded(value) => Bound::Excluded(map(value)),
        };
        Range { start, end }
    }

    /// Maps each contained bound value from behind a reference.
    pub fn map_ref<U, F: Fn(&T) -> U>(&self, map: F) -> (r: Range<U>)
        requires
            forall|t: T| map.requires((&t,)),
        ensures
            match (self.start, r.start) {
                (Bound::Unbounded, Bound::Unbounded) => true,
                (Bound::Included(t), Bound::Included(u)) => map.ensures((&t,), u),
                (Bound::Excluded(t), Bound::Excluded(u)) => map.ensures((&t,), u),
                _ => false,
            },
            match (self.end, r.end) {
                (Bound::Unbounded, Bound::Unbounded) => true,
                (Bound::Included(t), Bound::Included(u)) => map.ensures((&t,), u),
                (Bound::Excluded(t), Bound::Excluded(u)) => map.ensures((&t,), u),
                _ => false,
            },
    {
        let start = match &self.start {
            Bound::Unbounded => Bound::Unbounded,
            Bound::Included(value) => Bound::Included(map(value)),
            Bound::Excluded(value) => Bound::Excluded(map(value)),
        };
        let end = match &self.end {
            Bound::Unbounded => Bound::Unbounded,
            Bound::Included(value) => Bound::Included(map(value)),
            Bound::Excluded(value) => Bound::Excluded(map(value)),
        };
        Range { start, end }
    }
}

/// Relates a bound over keys to its serialized byte form.
pub open spec fn bound_encoded<T: Key>(bound: Bound<T>, encoded: Bound<Vec<u8>>) -> bool {
    match (bound, encoded) {
        (Bound::Unbounded, Bound::Unbounded) => true,
        (Bound::Included(t), Bound::Included(b)) => b@ == t.encoded(),
        (Bound::Excluded(t), Bound::Excluded(b)) => b@ == t.encoded(),
        _ => false,
    }
}

impl<T: Key> Bound<T> {
    /// Serializes the contained value, if any, to big-endian bytes.
    pub fn as_big_endian_bytes(&self) -> (r: Bound<Vec<u8>>)
        ensures
            bound_encoded(*self, r),
    {
        match self {
            Bound::Unbounded => Bound::Unbounded,
            Bound::Included(value) => Bound::Included(value.as_big_endian_bytes()),
            Bound::Excluded(value) => Bound::Excluded(value.as_big_endian_bytes()),
        }
    }
}

impl<T: Key> Range<T> {
    /// Serializes the range's contained values to big-endian bytes.
    pub fn as_big_endian_bytes(&self) -> (r: Range<Vec<u8>>)
        ensures
            bound_encoded(self.start, r.start),
            bound_encoded(self.end, r.end),
    {
        Range { start: self.start.as_big_endian_bytes(), end: self.end.as_big_endian_bytes() }
    }
}

/// Whether serialized `bytes` decode to the key bound `decoded`.
pub open spec fn bound_decodes_to<T: Key>(bytes: Bound<Vec<u8>>, decoded: Bound<T>) -> bool {
    match (bytes, decoded) {
        (Bound::Unbounded, Bound::Unbounded) => true,
        (Bound::Included(b), Bound::Included(t)) => T::decoded(b@) == Some(t),
        (Bound::Excluded(b), Bound::Excluded(t)) => T::decoded(b@) == Some(t),
        _ => false,
    }
}

/// Whether a serialized bound holds bytes that decode as keys of `T`.
pub open spec fn bound_decodable<T: Key>(bytes: Bound<Vec<u8>>) -> bool {
    match bytes {
        Bound::Unbounded => true,
        Bound::Included(b) => T::decoded(b@) is Some,
        Bound::Excluded(b) => T::decoded(b@) is Some,
    }
}

impl Bound<Vec<u8>> {
    /// Deserializes the bound's contained value from big-endian bytes.
    pub fn deserialize<T: Key>(&self) -> (r: Result<Bound<T>, Error>)
        ensures
            match r {
                Ok(decoded) => bound_decodes_to(*self, decoded),
                Err(e) => !bound_decodable::<T>(*self) && e is Serialization,
            },
            r is Ok <==> bound_decodable::<T>(*self),
    {
        match self {
            Bound::Unbounded => Ok(Bound::Unbounded),
            Bound::Included(value) => match T::from_big_endian_bytes(value.as_slice()) {
                Ok(t) => Ok(Bound::Included(t)),
                Err(e) => Err(e),
            },
            Bound::Excluded(value) => match T::from_big_endian_bytes(value.as_slice()) {
                Ok(t) => Ok(Bound::Excluded(t)),
                Err(e) => Err(e),
            },
        }
    }
}

impl Range<Vec<u8>> {
    /// Deserializes the range's contained values from big-endian bytes:
    /// the start bound from the serialized start, the end bound from
    /// the serialized end.
    pub fn deserialize<T: Key>(&self) -> (r: Result<Range<T>, Error>)
        ensures
            match r {
                Ok(decoded) => bound_decodes_to(self.start, decoded.start) && bound_decodes_to(
                    self.end,
                    decoded.end,
                ),
                Err(e) => (!bound_decodable::<T>(self.start) || !bound_decodable::<T>(self.end))
                    && e is Serialization,
            },
            r is Ok <==> bound_decodable::<T>(self.start) && bound_decodable::<T>(self.end),
    {
        let start = match self.start.deserialize::<T>() {
            Ok(b) => b,
            Err(e) => {
                return Err(e);
            },
        };
        let end = match self.end.deserialize::<T>() {
            Ok(b) => b,
            Err(e) => {
                return Err(e);
            },
        };
        Ok(Range { start, end })
    }
}

/// Filters a view query by key.
#[derive(Clone, Debug)]
pub enum QueryKey<K> {
    /// Matches all entries with the key provided.
    Matches(K),
    /// Matches all entries with keys in the range provided.
    Range(Range<K>),
    /// Matches all entries whose key is one of the keys provided.
    Multiple(Vec<K>),
}

/// Relates a key filter over keys to its serialized byte form.
pub open spec fn query_key_encoded<K: Key>(key: QueryKey<K>, encoded: QueryKey<Vec<u8>>) -> bool {
    match (key, encoded) {
        (QueryKey::Matches(k), QueryKey::Matches(b)) => b@ == k.encoded(),
        (QueryKey::Range(r), QueryKey::Range(br)) => bound_encoded(r.start, br.start)
            && bound_encoded(r.end, br.end),
        (QueryKey::Multiple(ks), QueryKey::Multiple(bs)) => bs.len() == ks.len() && forall|i: int|
            0 <= i < ks.len() ==> #[trigger] bs[i]@ == ks[i].encoded(),
        _ => false,
    }
}

impl<K: Key> QueryKey<K> {
    /// Converts this filter to its serialized byte form.
    pub fn serialized(&self) -> (r: QueryKey<Vec<u8>>)
        ensures
            query_key_encoded(*self, r),
    {
        match self {
            QueryKey::Matches(key) => QueryKey::Matches(key.as_big_endian_bytes()),
            QueryKey::Range(range) => QueryKey::Range(range.as_big_endian_bytes()),
            QueryKey::Multiple(keys) => {
                let mut out: Vec<Vec<u8>> = Vec::new();
                let mut i: usize = 0;
                while i < keys.len()
                    invariant
                        0 <= i <= keys.len(),
                        out.len() == i,
                        forall|j: int| 0 <= j < i ==> #[trigger] out[j]@ == keys[j].encoded(),
                    decreases keys.len() - i,
                {
                    out.push(keys[i].as_big_endian_bytes());
                    i += 1;
                }
                QueryKey::Multiple(out)
            },
        }
    }
}

/// Whether a serialized key filter decodes to the filter `decoded`.
pub open spec fn query_key_decodes_to<K: Key>(bytes: QueryKey<Vec<u8>>, decoded: QueryKey<K>) -> bool {
    match (bytes, decoded) {
        (QueryKey::Matches(b), QueryKey::Matches(k)) => K::decoded(b@) == Some(k),
        (QueryKey::Range(br), QueryKey::Range(r)) => bound_decodes_to(br.start, r.start)
            && bound_decodes_to(br.end, r.end),
        (QueryKey::Multiple(bs), QueryKey::Multiple(ks)) => ks.len() == bs.len() && forall|i: int|
            0 <= i < bs.len() ==> K::decoded(#[trigger] bs[i]@) == Some(ks[i]),
        _ => false,
    }
}

/// Whether every byte string in a serialized key filter decodes as `K`.
pub open spec fn query_key_decodable<K: Key>(bytes: QueryKey<Vec<u8>>) -> bool {
    match bytes {
        QueryKey::Matches(b) => K::decoded(b@) is Some,
        QueryKey::Range(br) => bound_decodable::<K>(br.start) && bound_decodable::<K>(br.end),
        QueryKey::Multiple(bs) => forall|i: int|
            0 <= i < bs.len() ==> K::decoded(#[trigger] bs[i]@) is Some,
    }
}

impl QueryKey<Vec<u8>> {
    /// Decodes the filter's byte strings back into keys of `K`.
    pub fn deserialized<K: Key>(&self) -> (r: Result<QueryKey<K>, Error>)
        ensures
            match r {
                Ok(decoded) => query_key_decodes_to(*self, decoded),
                Err(e) => !query_key_decodable::<K>(*self) && e is Serialization,
            },
            r is Ok <==> query_key_decodable::<K>(*self),
    {
        match self {
            QueryKey::Matches(bytes) => match K::from_big_endian_bytes(bytes.as_slice()) {
                Ok(k) => Ok(QueryKey::Matches(k)),
                Err(e) => Err(e),
            },
            QueryKey::Range(range) => match range.deserialize::<K>() {
                Ok(r) => Ok(QueryKey::Range(r)),
                Err(e) => Err(e),
            },
            QueryKey::Multiple(keys) => {
                let mut out: Vec<K> = Vec::new();
                let mut i: usize = 0;
                while i < keys.len()
                    invariant
                        0 <= i <= keys.len(),
                        out.len() == i,
                        *self == QueryKey::Multiple(*keys),
                        forall|j: int|
                            0 <= j < i ==> K::decoded(#[trigger] keys[j]@) == Some(out[j]),
                    decreases keys.len() - i,
                {
                    match K::from_big_endian_bytes(keys[i].as_slice()) {
                        Ok(k) => out.push(k),
                        Err(e) => {
                            assert(K::decoded(keys[i as int]@) is None);
                            assert(!query_key_decodable::<K>(*self));
                            return Err(e);
                        },
                    }
                    i += 1;
                }
                Ok(QueryKey::Multiple(out))
            },
        }
    }
}

} // verus!
