use crate::bytesrepr::{Error, FromBytes, ToBytes};
use crate::ordered::{Ordered, Rank};
use vstd::prelude::*;

verus! {

/// Whether `a` and `b` agree on their first `i` bytes and both have a byte at `i`.
pub open spec fn agree_before(a: Seq<u8>, b: Seq<u8>, i: int) -> bool {
    &&& 0 <= i < a.len()
    &&& i < b.len()
    &&& forall|j: int| 0 <= j < i ==> a[j] == b[j]
}

/// Whether `a` comes before `b` in the order of keys: at the first byte in which they
/// differ, that of `a` is the smaller.
pub open spec fn key_lt(a: Seq<u8>, b: Seq<u8>) -> bool {
    exists|i: int| #[trigger] agree_before(a, b, i) && a[i] < b[i]
}

/// No key comes before itself, and of two keys at most one comes before the other.
pub proof fn lemma_key_lt_asymmetric(a: Seq<u8>, b: Seq<u8>)
    ensures
        !(key_lt(a, b) && key_lt(b, a)),
        key_lt(a, b) ==> a != b,
{
    if key_lt(a, b) && key_lt(b, a) {
        let i = choose|i: int| #[trigger] agree_before(a, b, i) && a[i] < b[i];
        let j = choose|j: int| #[trigger] agree_before(b, a, j) && b[j] < a[j];
        if i < j {
            assert(b[i] == a[i]);
        } else if j < i {
            assert(a[j] == b[j]);
        }
    }
}

/// The order of keys is transitive.
pub proof fn lemma_key_lt_transitive(a: Seq<u8>, b: Seq<u8>, c: Seq<u8>)
    requires
        key_lt(a, b),
        key_lt(b, c),
    ensures
        key_lt(a, c),
{
    let i = choose|i: int| #[trigger] agree_before(a, b, i) && a[i] < b[i];
    let j = choose|j: int| #[trigger] agree_before(b, c, j) && b[j] < c[j];
    if i <= j {
        assert(agree_before(a, c, i));
    } else {
        assert(agree_before(a, c, j));
    }
}

/// The identity of a validator: a public key of 32 bytes.
#[derive(Debug, Clone, Copy, PartialEq, Eq, PartialOrd, Ord, Hash)]
pub struct ValidatorId(pub [u8; 32]);

impl View for ValidatorId {
    type V = Seq<u8>;

    open spec fn view(&self) -> Seq<u8> {
        self.0@
    }
}

impl DeepView for ValidatorId {
    type V = Seq<u8>;

    open spec fn deep_view(&self) -> Seq<u8> {
        self@
    }
}

impl ValidatorId {
    /// The validator with the public key `bytes`.
    pub fn new(bytes: [u8; 32]) -> (r: ValidatorId)
        ensures
            r@ == bytes@,
    {
        ValidatorId(bytes)
    }

    /// Where this key stands relative to `other`.
    pub fn rank(&self, other: &ValidatorId) -> (r: Rank)
        ensures
            r == Rank::Before <==> key_lt(self@, other@),
            r == Rank::Same <==> self@ == other@,
            r == Rank::After <==> key_lt(other@, self@),
    {
        proof {
            lemma_key_lt_asymmetric(self@, other@);
            lemma_key_lt_asymmetric(other@, self@);
        }
        let mut i: usize = 0;
        while i < 32
            invariant
                i <= 32,
                forall|j: int| 0 <= j < i ==> self@[j] == other@[j],
            decreases 32 - i,
        {
            if self.0[i] < other.0[i] {
                assert(agree_before(self@, other@, i as int));
                return Rank::Before;
            }
            if self.0[i] > other.0[i] {
                assert(agree_before(other@, self@, i as int));
                return Rank::After;
            }
            i = i + 1;
        }
        assert(self@ =~= other@);
        Rank::Same
    }

    /// Whether the two keys are the same.
    pub fn same(&self, other: &ValidatorId) -> (r: bool)
        ensures
            r == (self@ == other@),
    {
        match self.rank(other) {
            Rank::Same => true,
            _ => false,
        }
    }
}

impl Ordered for ValidatorId {
    /// The order of the keys as arrays of bytes.
    open spec fn before(a: Seq<u8>, b: Seq<u8>) -> bool {
        key_lt(a, b)
    }

    fn rank(&self, other: &Self) -> (r: Rank) {
        ValidatorId::rank(self, other)
    }

    proof fn lemma_before_asymmetric(a: Seq<u8>, b: Seq<u8>) {
        lemma_key_lt_asymmetric(a, b);
    }

    proof fn lemma_before_transitive(a: Seq<u8>, b: Seq<u8>, c: Seq<u8>) {
        lemma_key_lt_transitive(a, b, c);
    }
}

impl ToBytes for ValidatorId {
    /// The layout of an array of 32 bytes.
    open spec fn encoding(&self) -> Seq<u8> {
        self.0.encoding()
    }

    open spec fn encodable(&self) -> bool {
        true
    }

    fn to_bytes(&self) -> (bytes: Vec<u8>) {
        self.0.to_bytes()
    }
}

impl FromBytes for ValidatorId {
    open spec fn frame(bytes: Seq<u8>) -> Result<nat, Error> {
        <[u8; 32]>::frame(bytes)
    }

    fn from_bytes(bytes: &[u8]) -> (r: Result<(Self, &[u8]), Error>)
        ensures
            r is Ok ==> r->Ok_0.0@ == bytes@.subrange(4, 36),
    {
        match <[u8; 32]>::from_bytes(bytes) {
            Err(e) => Err(e),
            Ok((key, rem)) => Ok((ValidatorId(key), rem)),
        }
    }

    proof fn lemma_frame_within(bytes: Seq<u8>) {
        <[u8; 32]>::lemma_frame_within(bytes);
    }

    proof fn lemma_frame_of_encoding(&self, rest: Seq<u8>) {
        self.0.lemma_frame_of_encoding(rest);
    }

    proof fn lemma_encoding_unique(&self, other: &Self) {
        self.0.lemma_encoding_unique(&other.0);
        assert forall|i: int| 0 <= i < self@.len() implies self@[i] == other@[i] by {
            assert(self.0.deep_view()[i] == self@[i]);
            assert(other.0.deep_view()[i] == other@[i]);
        }
        assert(self@ =~= other@);
    }
}

} // verus!
