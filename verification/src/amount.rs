use crate::bytesrepr::{
    le_digits, le_value, lemma_le_digits_len, lemma_le_digits_of_value, lemma_le_value_of_digits,
    lemma_le_value_push, lemma_pow256_bound, lemma_pow256_values, lemma_seq_encoding_bytes,
    lemma_seq_frame_of_encoding, pow256, read_le, seq_encoding, Error, FromBytes, ToBytes,
};
use vstd::prelude::*;

verus! {

/// The base-256 digits of `n`, least significant first, without a most significant
/// zero: the shortest digit string whose value is `n`.
pub open spec fn min_digits(n: nat) -> Seq<u8>
    decreases n,
{
    if n == 0 {
        Seq::empty()
    } else {
        seq![(n % 256) as u8] + min_digits(n / 256)
    }
}

/// Whether a digit string has no most significant zero.
pub open spec fn trimmed(digits: Seq<u8>) -> bool {
    digits.len() == 0 || digits[digits.len() - 1] != 0
}

/// The digit of `digits` at position `i`, zero beyond the end.
pub open spec fn digit_or_zero(digits: Seq<u8>, i: nat) -> nat {
    if i < digits.len() {
        digits[i as int] as nat
    } else {
        0
    }
}

/// The value of the `i` least significant digits of `digits`.
pub open spec fn low_value(digits: Seq<u8>, i: nat) -> nat {
    if i < digits.len() {
        le_value(digits.take(i as int))
    } else {
        le_value(digits)
    }
}

/// The shortest digit string of a number stands for that number and is trimmed.
pub proof fn lemma_min_digits_value(n: nat)
    ensures
        le_value(min_digits(n)) == n,
        trimmed(min_digits(n)),
        n == 0 <==> min_digits(n).len() == 0,
    decreases n,
{
    if n != 0 {
        lemma_min_digits_value(n / 256);
        let rest = min_digits(n / 256);
        assert(min_digits(n).skip(1) =~= rest);
        if rest.len() > 0 {
            assert(min_digits(n)[min_digits(n).len() - 1] == rest[rest.len() - 1]);
        }
    }
}

/// A trimmed digit string is the shortest one of its value.
pub proof fn lemma_trimmed_is_min(digits: Seq<u8>)
    requires
        trimmed(digits),
    ensures
        min_digits(le_value(digits)) == digits,
    decreases digits.len(),
{
    if digits.len() > 0 {
        let rest = digits.skip(1);
        if rest.len() > 0 {
            assert(rest[rest.len() - 1] == digits[digits.len() - 1]);
            lemma_trimmed_is_min(rest);
            lemma_min_digits_value(le_value(rest));
        } else {
            assert(le_value(rest) == 0);
        }
        let v = le_value(digits);
        assert(v == digits[0] as nat + 256 * le_value(rest));
        assert(v != 0);
        assert(v % 256 == digits[0] as nat);
        assert(v / 256 == le_value(rest));
        assert(min_digits(le_value(rest)) =~= rest);
        assert(min_digits(v) == seq![(v % 256) as u8] + min_digits(v / 256));
        assert(min_digits(v) =~= digits);
    }
}

/// A most significant zero does not change the value.
pub proof fn lemma_le_value_drop_zero(digits: Seq<u8>)
    requires
        digits.len() > 0,
        digits[digits.len() - 1] == 0,
    ensures
        le_value(digits.drop_last()) == le_value(digits),
{
    lemma_le_value_push(digits.drop_last(), 0);
    assert(digits.drop_last().push(0) =~= digits);
}

/// One more digit adds that digit at the weight of its position.
pub proof fn lemma_low_value_step(digits: Seq<u8>, i: nat)
    ensures
        low_value(digits, i + 1) == low_value(digits, i) + digit_or_zero(digits, i) * pow256(i),
        low_value(digits, 0) == 0,
{
    assert(digits.take(0) =~= Seq::<u8>::empty());
    if i < digits.len() {
        lemma_le_value_push(digits.take(i as int), digits[i as int]);
        assert(digits.take(i as int).push(digits[i as int]) =~= digits.take(i + 1 as int));
        assert(digits.take(digits.len() as int) =~= digits);
    } else {
        assert(0 * pow256(i) == 0);
    }
}

/// An unsigned integer of any size.
#[derive(Debug, PartialEq, Eq)]
pub struct Amount {
    digits: Vec<u8>,
}

impl View for Amount {
    type V = nat;

    closed spec fn view(&self) -> nat {
        le_value(self.digits@)
    }
}

impl DeepView for Amount {
    type V = nat;

    open spec fn deep_view(&self) -> nat {
        self@
    }
}

/// Removes the most significant zeros of `digits`.
fn trim(digits: Vec<u8>) -> (r: Vec<u8>)
    ensures
        trimmed(r@),
        le_value(r@) == le_value(digits@),
{
    let mut digits = digits;
    let ghost value = le_value(digits@);
    while digits.len() > 0 && digits[digits.len() - 1] == 0
        invariant
            le_value(digits@) == value,
        decreases digits@.len(),
    {
        proof {
            lemma_le_value_drop_zero(digits@);
        }
        digits.pop();
    }
    digits
}

impl Amount {
    #[verifier::type_invariant]
    spec fn well_formed(&self) -> bool {
        trimmed(self.digits@)
    }

    /// The amount zero.
    pub fn zero() -> (r: Amount)
        ensures
            r@ == 0,
    {
        Amount { digits: Vec::new() }
    }

    /// The largest amount that `width` bytes can hold: 256 to the power `width`, less
    /// one.
    pub fn largest(width: usize) -> (r: Amount)
        ensures
            r@ == pow256(width as nat) - 1,
    {
        let mut digits: Vec<u8> = Vec::new();
        let mut i: usize = 0;
        proof {
            assert(pow256(0) == 1);
            assert(le_value(digits@) == 0);
        }
        while i < width
            invariant
                i <= width,
                digits@.len() == i,
                le_value(digits@) == pow256(i as nat) - 1,
                trimmed(digits@),
            decreases width - i,
        {
            proof {
                lemma_le_value_push(digits@, 0xFF);
            }
            digits.push(0xFF);
            i = i + 1;
        }
        Amount { digits }
    }

    /// The amount whose base-256 digits are `bytes`, least significant first.
    pub fn from_le_bytes(bytes: &[u8]) -> (r: Amount)
        ensures
            r@ == le_value(bytes@),
    {
        let mut digits: Vec<u8> = Vec::new();
        digits.extend_from_slice(bytes);
        assert(digits@ =~= bytes@);
        Amount { digits: trim(digits) }
    }

    /// The amount `x`.
    pub fn from_u64(x: u64) -> (r: Amount)
        ensures
            r@ == x,
    {
        let mut digits: Vec<u8> = Vec::new();
        let mut rest: u64 = x;
        proof {
            assert(pow256(0) == 1);
            assert(le_value(digits@) == 0);
            assert(x * 1 == x);
        }
        while rest > 0
            invariant
                le_value(digits@) + rest * pow256(digits@.len()) == x,
                rest == 0 ==> trimmed(digits@),
            decreases rest,
        {
            let d: u8 = (rest % 256) as u8;
            proof {
                lemma_le_value_push(digits@, d);
                let p = pow256(digits@.len());
                assert(d * p + (rest / 256) * (256 * p) == rest * p) by (nonlinear_arith)
                    requires
                        rest == d + 256 * (rest / 256),
                ;
            }
            digits.push(d);
            rest = rest / 256;
        }
        assert(0 * pow256(digits@.len()) == 0);
        Amount { digits }
    }

    /// Whether the amount is zero.
    pub fn is_zero(&self) -> (r: bool)
        ensures
            r == (self@ == 0),
    {
        proof {
            use_type_invariant(self);
            lemma_trimmed_is_min(self.digits@);
            lemma_min_digits_value(self@);
        }
        self.digits.len() == 0
    }

    /// A copy of the amount.
    pub fn duplicate(&self) -> (r: Amount)
        ensures
            r@ == self@,
    {
        proof {
            use_type_invariant(self);
        }
        let digits = self.digits.clone();
        assert(digits@ =~= self.digits@);
        Amount { digits }
    }

    /// The sum of two amounts.
    pub fn add(&self, other: &Amount) -> (r: Amount)
        ensures
            r@ == self@ + other@,
    {
        let n: usize = if self.digits.len() > other.digits.len() {
            self.digits.len()
        } else {
            other.digits.len()
        };
        let mut out: Vec<u8> = Vec::new();
        let mut carry: u16 = 0;
        let mut i: usize = 0;
        proof {
            lemma_low_value_step(self.digits@, 0);
            lemma_low_value_step(other.digits@, 0);
            assert(0 * pow256(0) == 0);
        }
        while i < n
            invariant
                i <= n,
                n >= self.digits@.len(),
                n >= other.digits@.len(),
                out@.len() == i,
                carry <= 1,
                le_value(out@) + carry * pow256(i as nat) == low_value(self.digits@, i as nat)
                    + low_value(other.digits@, i as nat),
            decreases n - i,
        {
            let da: u16 = if i < self.digits.len() {
                self.digits[i] as u16
            } else {
                0
            };
            let db: u16 = if i < other.digits.len() {
                other.digits[i] as u16
            } else {
                0
            };
            let t: u16 = da + db + carry;
            let d: u8 = (t % 256) as u8;
            proof {
                lemma_le_value_push(out@, d);
                lemma_low_value_step(self.digits@, i as nat);
                lemma_low_value_step(other.digits@, i as nat);
                let p = pow256(i as nat);
                assert(d * p + (t / 256) * (256 * p) == da * p + db * p + carry * p)
                    by (nonlinear_arith)
                    requires
                        t == d + 256 * (t / 256),
                        t == da + db + carry,
                ;
            }
            out.push(d);
            carry = t / 256;
            i = i + 1;
        }
        proof {
            lemma_le_value_push(out@, carry as u8);
        }
        out.push(carry as u8);
        Amount { digits: trim(out) }
    }

    /// The difference of two amounts, where the second is not the larger.
    pub fn checked_sub(&self, other: &Amount) -> (r: Option<Amount>)
        ensures
            r is Some <==> other@ <= self@,
            r is Some ==> r->Some_0@ == self@ - other@,
    {
        let n: usize = if self.digits.len() > other.digits.len() {
            self.digits.len()
        } else {
            other.digits.len()
        };
        let mut out: Vec<u8> = Vec::new();
        let mut borrow: u16 = 0;
        let mut i: usize = 0;
        proof {
            lemma_low_value_step(self.digits@, 0);
            lemma_low_value_step(other.digits@, 0);
            assert(0 * pow256(0) == 0);
        }
        while i < n
            invariant
                i <= n,
                n >= self.digits@.len(),
                n >= other.digits@.len(),
                out@.len() == i,
                borrow <= 1,
                le_value(out@) + low_value(other.digits@, i as nat) == low_value(
                    self.digits@,
                    i as nat,
                ) + borrow * pow256(i as nat),
            decreases n - i,
        {
            let da: u16 = if i < self.digits.len() {
                self.digits[i] as u16
            } else {
                0
            };
            let db: u16 = if i < other.digits.len() {
                other.digits[i] as u16
            } else {
                0
            };
            let t: u16 = 256 + da - db - borrow;
            let d: u8 = (t % 256) as u8;
            let next: u16 = if t < 256 {
                1
            } else {
                0
            };
            proof {
                lemma_le_value_push(out@, d);
                lemma_low_value_step(self.digits@, i as nat);
                lemma_low_value_step(other.digits@, i as nat);
                let p = pow256(i as nat);
                assert(borrow * p + d * p + db * p == da * p + next * (256 * p))
                    by (nonlinear_arith)
                    requires
                        borrow + d + db == da + 256 * next,
                ;
            }
            out.push(d);
            borrow = next;
            i = i + 1;
        }
        proof {
            lemma_le_digits_of_value(out@);
            assert(0 * pow256(i as nat) == 0);
            assert(1 * pow256(i as nat) == pow256(i as nat));
        }
        if borrow == 1 {
            None
        } else {
            Some(Amount { digits: trim(out) })
        }
    }

    /// Whether this amount is at most `other`.
    pub fn le(&self, other: &Amount) -> (r: bool)
        ensures
            r == (self@ <= other@),
    {
        other.checked_sub(self).is_some()
    }

    /// Whether this amount is below `other`.
    pub fn lt(&self, other: &Amount) -> (r: bool)
        ensures
            r == (self@ < other@),
    {
        !other.le(self)
    }

    /// Whether the two amounts are the same number.
    pub fn same(&self, other: &Amount) -> (r: bool)
        ensures
            r == (self@ == other@),
    {
        self.le(other) && other.le(self)
    }

    /// The product of the amount and `k`.
    pub fn mul_u64(&self, k: u64) -> (r: Amount)
        ensures
            r@ == self@ * k,
    {
        let mut out: Vec<u8> = Vec::new();
        let mut carry: u128 = 0;
        let mut i: usize = 0;
        proof {
            lemma_low_value_step(self.digits@, 0);
            assert(0 * pow256(0) == 0);
            assert(0 * k == 0);
        }
        while i < self.digits.len()
            invariant
                i <= self.digits@.len(),
                out@.len() == i,
                carry < 0x1_0000_0000_0000_0000,
                le_value(out@) + carry * pow256(i as nat) == low_value(self.digits@, i as nat)
                    * k,
            decreases self.digits@.len() - i,
        {
            let digit: u128 = self.digits[i] as u128;
            assert(digit * k <= 255 * 0xFFFF_FFFF_FFFF_FFFF) by (nonlinear_arith)
                requires
                    digit <= 255,
                    k <= 0xFFFF_FFFF_FFFF_FFFF,
            ;
            let t: u128 = digit * (k as u128) + carry;
            let d: u8 = (t % 256) as u8;
            proof {
                lemma_le_value_push(out@, d);
                lemma_low_value_step(self.digits@, i as nat);
                let p = pow256(i as nat);
                let low = low_value(self.digits@, i as nat);
                assert(d * p + (t / 256) * (256 * p) == carry * p + (digit * p) * k)
                    by (nonlinear_arith)
                    requires
                        t == d + 256 * (t / 256),
                        t == digit * k + carry,
                ;
                assert((low + digit * p) * k == low * k + (digit * p) * k) by (nonlinear_arith);
            }
            out.push(d);
            carry = t / 256;
            i = i + 1;
        }
        while carry > 0
            invariant
                le_value(out@) + carry * pow256(out@.len()) == self@ * k,
            decreases carry,
        {
            let d: u8 = (carry % 256) as u8;
            proof {
                lemma_le_value_push(out@, d);
                let p = pow256(out@.len());
                assert(d * p + (carry / 256) * (256 * p) == carry * p) by (nonlinear_arith)
                    requires
                        carry == d + 256 * (carry / 256),
                ;
            }
            out.push(d);
            carry = carry / 256;
        }
        assert(0 * pow256(out@.len()) == 0);
        Amount { digits: trim(out) }
    }

    /// The amount as a `u64`, where it fits.
    pub fn to_u64(&self) -> (r: Option<u64>)
        ensures
            r is Some <==> self@ <= u64::MAX,
            r is Some ==> r->Some_0 == self@,
    {
        proof {
            use_type_invariant(self);
            lemma_pow256_values();
            lemma_le_digits_of_value(self.digits@);
        }
        let len: usize = self.digits.len();
        if len > 8 {
            proof {
                let lower = self.digits@.drop_last();
                let top = self.digits@[len - 1];
                lemma_le_value_push(lower, top);
                assert(lower.push(top) =~= self.digits@);
                lemma_pow256_bound(8, (len - 1) as nat);
                assert(top * pow256((len - 1) as nat) >= pow256((len - 1) as nat))
                    by (nonlinear_arith)
                    requires
                        top >= 1,
                ;
            }
            None
        } else {
            let x: u64 = read_le(self.digits.as_slice(), len);
            proof {
                assert(self.digits@.take(len as int) =~= self.digits@);
                lemma_pow256_bound(len as nat, 8);
            }
            Some(x)
        }
    }
}

impl ToBytes for Amount {
    /// A four-byte count of digits, then the base-256 digits, least significant
    /// first, without a most significant zero.
    open spec fn encoding(&self) -> Seq<u8> {
        le_digits(min_digits(self@).len(), 4) + min_digits(self@)
    }

    open spec fn encodable(&self) -> bool {
        min_digits(self@).len() < 0x1_0000_0000
    }

    fn to_bytes(&self) -> (bytes: Vec<u8>) {
        proof {
            use_type_invariant(self);
            lemma_trimmed_is_min(self.digits@);
            lemma_seq_encoding_bytes(self.digits@);
        }
        self.digits.to_bytes()
    }
}

impl FromBytes for Amount {
    open spec fn frame(bytes: Seq<u8>) -> Result<nat, Error> {
        match Vec::<u8>::frame(bytes) {
            Err(e) => Err(e),
            Ok(n) => if n > 4 && bytes[n - 1] == 0 {
                Err(Error::FormattingError)
            } else {
                Ok(n)
            },
        }
    }

    fn from_bytes(bytes: &[u8]) -> (r: Result<(Self, &[u8]), Error>)
        ensures
            r is Ok ==> r->Ok_0.0@ == le_value(
                bytes@.subrange(4, 4 + le_value(bytes@.take(4)) as int),
            ),
    {
        match Vec::<u8>::from_bytes(bytes) {
            Err(e) => Err(e),
            Ok((digits, rem)) => {
                proof {
                    lemma_seq_encoding_bytes(digits@);
                    lemma_le_digits_len(digits@.len(), 4);
                }
                let len: usize = digits.len();
                if len > 0 && digits[len - 1] == 0 {
                    Err(Error::FormattingError)
                } else {
                    proof {
                        lemma_trimmed_is_min(digits@);
                        lemma_pow256_values();
                        lemma_le_value_of_digits(digits@.len(), 4);
                        assert(bytes@.take(4) =~= le_digits(digits@.len(), 4));
                        assert(bytes@.subrange(4, 4 + digits@.len() as int) =~= digits@);
                    }
                    Ok((Amount { digits }, rem))
                }
            },
        }
    }

    proof fn lemma_frame_within(bytes: Seq<u8>) {
        Vec::<u8>::lemma_frame_within(bytes);
    }

    proof fn lemma_frame_of_encoding(&self, rest: Seq<u8>) {
        let digits = min_digits(self@);
        let all = self.encoding() + rest;
        lemma_min_digits_value(self@);
        lemma_pow256_values();
        lemma_le_digits_len(digits.len(), 4);
        lemma_le_value_of_digits(digits.len(), 4);
        lemma_seq_encoding_bytes(digits);
        assert(all.take(4) =~= le_digits(digits.len(), 4));
        assert(all.skip(4) =~= seq_encoding::<u8>(digits) + rest);
        lemma_seq_frame_of_encoding::<u8>(digits, rest);
    }

    proof fn lemma_encoding_unique(&self, other: &Self) {
        lemma_le_digits_len(min_digits(self@).len(), 4);
        lemma_le_digits_len(min_digits(other@).len(), 4);
        lemma_min_digits_value(self@);
        lemma_min_digits_value(other@);
        assert(self.encoding().skip(4) =~= min_digits(self@));
        assert(other.encoding().skip(4) =~= min_digits(other@));
    }
}

} // verus!
