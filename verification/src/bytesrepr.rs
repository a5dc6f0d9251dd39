use vstd::prelude::*;
use vstd::string::StringSliceAdditionalSpecFns;
use vstd::utf8::{
    decode_utf8, decode_utf8_encode_utf8, encode_utf8, encode_utf8_decode_utf8,
    encode_utf8_valid_utf8, valid_utf8,
};

verus! {

/// Why a byte string could not be decoded.
#[derive(Debug, PartialEq, Eq, Clone, Copy, Structural)]
pub enum Error {
    /// Fewer bytes remain than the value needs.
    EarlyEndOfStream,
    /// A count, length or discriminant has a value that the layout does not allow.
    FormattingError,
    /// A complete value was read and bytes remain after it.
    LeftOverBytes,
}

/// A value with a byte layout. What the value is, apart from how it is held in
/// memory, is its deep view.
pub trait ToBytes: DeepView {
    /// The bytes that stand for this value.
    spec fn encoding(&self) -> Seq<u8>;

    /// Whether the value can be read back from its encoding: every length and count
    /// inside it fits its four-byte prefix, and the value is one that its type allows.
    /// The encoding of a length that does not fit carries it modulo 2^32.
    spec fn encodable(&self) -> bool;

    /// The bytes that stand for this value.
    fn to_bytes(&self) -> (bytes: Vec<u8>)
        ensures
            bytes@ == self.encoding(),
    ;
}

/// A value that can be read from the front of a byte string.
pub trait FromBytes: Sized + ToBytes {
    /// What stands at the front of `bytes`: the number of bytes that the first value
    /// occupies, or the reason why no value can be read there.
    spec fn frame(bytes: Seq<u8>) -> Result<nat, Error>;

    /// Reads one value from the front of `bytes` and returns it with the bytes after it.
    /// The value read is the one whose encoding stands at the front.
    fn from_bytes(bytes: &[u8]) -> (r: Result<(Self, &[u8]), Error>)
        ensures
            match r {
                Ok((value, rest)) => {
                    &&& Self::frame(bytes@) == Ok::<nat, Error>(value.encoding().len())
                    &&& value.encodable()
                    &&& bytes@ == value.encoding() + rest@
                },
                Err(e) => Self::frame(bytes@) == Err::<nat, Error>(e),
            },
    ;

    /// A framed value lies within the bytes it is framed in.
    proof fn lemma_frame_within(bytes: Seq<u8>)
        ensures
            Self::frame(bytes) is Ok ==> Self::frame(bytes)->Ok_0 <= bytes.len(),
    ;

    /// An encoding, whatever follows it, is framed as exactly itself.
    proof fn lemma_frame_of_encoding(&self, rest: Seq<u8>)
        requires
            self.encodable(),
        ensures
            Self::frame(self.encoding() + rest) == Ok::<nat, Error>(self.encoding().len()),
    ;

    /// Values with the same encoding are the same value.
    proof fn lemma_encoding_unique(&self, other: &Self)
        requires
            self.encodable(),
            other.encodable(),
            self.encoding() == other.encoding(),
        ensures
            self.deep_view() == other.deep_view(),
    ;
}

/// Reading back what was written gives the value written and the bytes after it:
/// if `read` stands at the front of the encoding of `written` followed by `rest`, then
/// `read` is `written`, and what follows `read` is `rest`.
pub proof fn lemma_round_trip<T: FromBytes>(
    written: T,
    rest: Seq<u8>,
    read: T,
    read_rest: Seq<u8>,
)
    requires
        written.encodable(),
        read.encodable(),
        written.encoding() + rest == read.encoding() + read_rest,
    ensures
        read.deep_view() == written.deep_view(),
        read.encoding() == written.encoding(),
        read_rest == rest,
{
    let all = written.encoding() + rest;
    written.lemma_frame_of_encoding(rest);
    read.lemma_frame_of_encoding(read_rest);
    assert(all.take(written.encoding().len() as int) =~= written.encoding());
    assert(all.take(read.encoding().len() as int) =~= read.encoding());
    assert(all.skip(written.encoding().len() as int) =~= rest);
    assert(all.skip(read.encoding().len() as int) =~= read_rest);
    read.lemma_encoding_unique(&written);
}

/// The encoding of a value that can be read back is decoded whole, with nothing
/// left over.
pub proof fn lemma_decode_encoded<T: FromBytes>(value: T)
    requires
        value.encodable(),
    ensures
        whole_frame(T::frame(value.encoding()), value.encoding().len()) == Ok::<nat, Error>(
            value.encoding().len(),
        ),
{
    value.lemma_frame_of_encoding(Seq::empty());
    assert(value.encoding() + Seq::<u8>::empty() =~= value.encoding());
}

/// The outcome of decoding all of `bytes` as one value of type `T`, given how the
/// front of `bytes` is framed.
pub open spec fn whole_frame(frame: Result<nat, Error>, len: nat) -> Result<nat, Error> {
    match frame {
        Ok(n) => if n == len {
            Ok(n)
        } else {
            Err(Error::LeftOverBytes)
        },
        Err(e) => Err(e),
    }
}

/// Decodes all of `bytes` as one value: the value whose encoding is `bytes`.
pub fn deserialize<T: FromBytes>(bytes: &[u8]) -> (r: Result<T, Error>)
    ensures
        match r {
            Ok(value) => {
                &&& T::frame(bytes@) == Ok::<nat, Error>(bytes@.len())
                &&& value.encodable()
                &&& value.encoding() == bytes@
            },
            Err(e) => whole_frame(T::frame(bytes@), bytes@.len()) == Err::<nat, Error>(e),
        },
{
    match T::from_bytes(bytes) {
        Ok((t, rem)) => {
            if rem.is_empty() {
                assert(bytes@ =~= t.encoding());
                Ok(t)
            } else {
                Err(Error::LeftOverBytes)
            }
        },
        Err(e) => Err(e),
    }
}

/// Splits `bytes` after its first `n` bytes, or reports that the stream ends early.
pub fn safe_split_at(bytes: &[u8], n: usize) -> (r: Result<(&[u8], &[u8]), Error>)
    ensures
        n > bytes@.len() ==> r == Err::<(&[u8], &[u8]), Error>(Error::EarlyEndOfStream),
        n <= bytes@.len() ==> r is Ok && r->Ok_0.0@ == bytes@.take(n as int) && r->Ok_0.1@
            == bytes@.skip(n as int),
{
    if n > bytes.len() {
        Err(Error::EarlyEndOfStream)
    } else {
        Ok(bytes.split_at(n))
    }
}

/// 256 to the power `k`.
pub open spec fn pow256(k: nat) -> nat
    decreases k,
{
    if k == 0 {
        1
    } else {
        256 * pow256((k - 1) as nat)
    }
}

/// The number that `digits` stand for, read as base-256 digits with the least
/// significant first.
pub open spec fn le_value(digits: Seq<u8>) -> nat
    decreases digits.len(),
{
    if digits.len() == 0 {
        0
    } else {
        digits[0] as nat + 256 * le_value(digits.skip(1))
    }
}

/// The `width` least significant base-256 digits of `n`, least significant first.
pub open spec fn le_digits(n: nat, width: nat) -> Seq<u8>
    decreases width,
{
    if width == 0 {
        Seq::empty()
    } else {
        seq![(n % 256) as u8] + le_digits(n / 256, (width - 1) as nat)
    }
}

/// The powers of 256 that bound the fixed-width integers.
pub proof fn lemma_pow256_values()
    ensures
        pow256(0) == 1,
        pow256(1) == 0x100,
        pow256(4) == 0x1_0000_0000,
        pow256(8) == 0x1_0000_0000_0000_0000,
{
    reveal_with_fuel(pow256, 9);
}

/// `le_digits` gives exactly `width` digits.
pub proof fn lemma_le_digits_len(n: nat, width: nat)
    ensures
        le_digits(n, width).len() == width,
    decreases width,
{
    if width > 0 {
        lemma_le_digits_len(n / 256, (width - 1) as nat);
    }
}

/// A number below 256^width is the value of its `width` digits.
pub proof fn lemma_le_value_of_digits(n: nat, width: nat)
    requires
        n < pow256(width),
    ensures
        le_value(le_digits(n, width)) == n,
    decreases width,
{
    if width > 0 {
        let rest = le_digits(n / 256, (width - 1) as nat);
        lemma_le_value_of_digits(n / 256, (width - 1) as nat);
        assert(le_digits(n, width).skip(1) =~= rest);
    }
}

/// The value of a digit string is below 256 to the power of its length, and its
/// digits at that width are the string itself.
pub proof fn lemma_le_digits_of_value(digits: Seq<u8>)
    ensures
        le_value(digits) < pow256(digits.len()),
        le_digits(le_value(digits), digits.len()) == digits,
    decreases digits.len(),
{
    if digits.len() > 0 {
        lemma_le_digits_of_value(digits.skip(1));
        assert(le_digits(le_value(digits), digits.len()) =~= digits);
    } else {
        assert(le_digits(le_value(digits), digits.len()) =~= digits);
    }
}

/// Appending a digit adds it at the weight of its position.
pub proof fn lemma_le_value_push(digits: Seq<u8>, d: u8)
    ensures
        le_value(digits.push(d)) == le_value(digits) + d * pow256(digits.len()),
    decreases digits.len(),
{
    let longer = digits.push(d);
    let weight = pow256(digits.len());
    assert(le_value(longer) == longer[0] as nat + 256 * le_value(longer.skip(1)));
    if digits.len() == 0 {
        assert(longer.skip(1) =~= Seq::<u8>::empty());
        assert(le_value(longer.skip(1)) == 0);
        assert(le_value(digits) == 0);
        assert(weight == 1);
        assert(d * weight == d) by (nonlinear_arith)
            requires
                weight == 1,
        ;
    } else {
        let tail = digits.skip(1);
        let lower = pow256(tail.len());
        lemma_le_value_push(tail, d);
        assert(longer.skip(1) =~= tail.push(d));
        assert(longer[0] == digits[0]);
        assert(le_value(digits) == digits[0] as nat + 256 * le_value(tail));
        assert(le_value(tail.push(d)) == le_value(tail) + d * lower);
        assert(weight == 256 * lower);
        assert(256 * (le_value(tail) + d * lower) == 256 * le_value(tail) + d * weight)
            by (nonlinear_arith)
            requires
                weight == 256 * lower,
        ;
    }
}

/// Reads the number whose `width` little-endian digits stand at the front of `bytes`.
pub fn read_le(bytes: &[u8], width: usize) -> (x: u64)
    requires
        width <= 8,
        width <= bytes@.len(),
    ensures
        x == le_value(bytes@.take(width as int)),
{
    let mut acc: u64 = 0;
    let mut i: usize = width;
    proof {
        lemma_pow256_values();
        assert(bytes@.take(width as int).skip(width as int) =~= Seq::<u8>::empty());
    }
    while i > 0
        invariant
            i <= width <= 8,
            width <= bytes@.len(),
            acc == le_value(bytes@.take(width as int).skip(i as int)),
        decreases i,
    {
        let ghost tail = bytes@.take(width as int).skip(i as int);
        let ghost longer = bytes@.take(width as int).skip(i - 1);
        proof {
            lemma_le_digits_of_value(tail);
            assert(longer.skip(1) =~= tail);
            assert(tail.len() <= 7);
            lemma_pow256_bound(tail.len(), 7);
            reveal_with_fuel(pow256, 8);
        }
        i = i - 1;
        acc = bytes[i] as u64 + 256 * acc;
    }
    proof {
        assert(bytes@.take(width as int).skip(0) =~= bytes@.take(width as int));
    }
    acc
}

/// 256^a is at most 256^b where a is at most b.
pub proof fn lemma_pow256_bound(a: nat, b: nat)
    requires
        a <= b,
    ensures
        0 < pow256(a) <= pow256(b),
    decreases b,
{
    if b == 0 {
    } else if a == b {
        lemma_pow256_bound((a - 1) as nat, (b - 1) as nat);
    } else {
        lemma_pow256_bound(a, (b - 1) as nat);
    }
}

/// Appends the `width` least significant little-endian digits of `n` to `out`.
pub fn write_le(out: &mut Vec<u8>, n: u64, width: usize)
    ensures
        final(out)@ == old(out)@ + le_digits(n as nat, width as nat),
{
    let mut x: u64 = n;
    let mut i: usize = 0;
    while i < width
        invariant
            i <= width,
            out@ + le_digits(x as nat, (width - i) as nat) == old(out)@ + le_digits(
                n as nat,
                width as nat,
            ),
        decreases width - i,
    {
        let ghost before = out@;
        let ghost rest = le_digits((x / 256) as nat, (width - i - 1) as nat);
        out.push((x % 256) as u8);
        proof {
            assert(out@ + rest =~= before + le_digits(x as nat, (width - i) as nat));
        }
        x = x / 256;
        i = i + 1;
    }
    assert(out@ + le_digits(x as nat, 0) =~= out@);
}

/// Appends a copy of `bytes` to `out`.
pub fn write_bytes(out: &mut Vec<u8>, bytes: &[u8])
    ensures
        final(out)@ == old(out)@ + bytes@,
{
    out.extend_from_slice(bytes);
    assert(out@ =~= old(out)@ + bytes@);
}

impl ToBytes for u8 {
    open spec fn encoding(&self) -> Seq<u8> {
        seq![*self]
    }

    open spec fn encodable(&self) -> bool {
        true
    }

    fn to_bytes(&self) -> (bytes: Vec<u8>) {
        let mut result = Vec::with_capacity(1);
        result.push(*self);
        assert(result@ =~= seq![*self]);
        result
    }
}

impl FromBytes for u8 {
    open spec fn frame(bytes: Seq<u8>) -> Result<nat, Error> {
        if bytes.len() < 1 {
            Err(Error::EarlyEndOfStream)
        } else {
            Ok(1)
        }
    }

    fn from_bytes(bytes: &[u8]) -> (r: Result<(Self, &[u8]), Error>)
        ensures
            r is Ok ==> r->Ok_0.0 == bytes@[0],
    {
        match safe_split_at(bytes, 1) {
            Err(e) => Err(e),
            Ok((first, rem)) => {
                let byte: u8 = first[0];
                assert(bytes@ =~= byte.encoding() + rem@);
                Ok((byte, rem))
            },
        }
    }

    proof fn lemma_frame_within(bytes: Seq<u8>) {
    }

    proof fn lemma_frame_of_encoding(&self, rest: Seq<u8>) {
    }

    proof fn lemma_encoding_unique(&self, other: &Self) {
        assert(seq![*self][0] == *self);
        assert(seq![*other][0] == *other);
        assert(self.encoding()[0] == other.encoding()[0]);
    }
}

impl ToBytes for u32 {
    open spec fn encoding(&self) -> Seq<u8> {
        le_digits(*self as nat, 4)
    }

    open spec fn encodable(&self) -> bool {
        true
    }

    fn to_bytes(&self) -> (bytes: Vec<u8>) {
        let mut result = Vec::with_capacity(4);
        write_le(&mut result, *self as u64, 4);
        result
    }
}

impl FromBytes for u32 {
    open spec fn frame(bytes: Seq<u8>) -> Result<nat, Error> {
        if bytes.len() < 4 {
            Err(Error::EarlyEndOfStream)
        } else {
            Ok(4)
        }
    }

    fn from_bytes(bytes: &[u8]) -> (r: Result<(Self, &[u8]), Error>)
        ensures
            r is Ok ==> r->Ok_0.0 == le_value(bytes@.take(4)),
    {
        match safe_split_at(bytes, 4) {
            Err(e) => Err(e),
            Ok((num_bytes, rem)) => {
                let wide: u64 = read_le(num_bytes, 4);
                proof {
                    lemma_pow256_values();
                    lemma_le_digits_of_value(bytes@.take(4));
                    assert(num_bytes@.take(4) =~= bytes@.take(4));
                    assert(bytes@ =~= bytes@.take(4) + rem@);
                }
                let x: u32 = wide as u32;
                Ok((x, rem))
            },
        }
    }

    proof fn lemma_frame_within(bytes: Seq<u8>) {
    }

    proof fn lemma_frame_of_encoding(&self, rest: Seq<u8>) {
        lemma_le_digits_len(*self as nat, 4);
    }

    proof fn lemma_encoding_unique(&self, other: &Self) {
        lemma_pow256_values();
        lemma_le_value_of_digits(*self as nat, 4);
        lemma_le_value_of_digits(*other as nat, 4);
    }
}

impl ToBytes for u64 {
    open spec fn encoding(&self) -> Seq<u8> {
        le_digits(*self as nat, 8)
    }

    open spec fn encodable(&self) -> bool {
        true
    }

    fn to_bytes(&self) -> (bytes: Vec<u8>) {
        let mut result = Vec::with_capacity(8);
        write_le(&mut result, *self, 8);
        result
    }
}

impl FromBytes for u64 {
    open spec fn frame(bytes: Seq<u8>) -> Result<nat, Error> {
        if bytes.len() < 8 {
            Err(Error::EarlyEndOfStream)
        } else {
            Ok(8)
        }
    }

    fn from_bytes(bytes: &[u8]) -> (r: Result<(Self, &[u8]), Error>)
        ensures
            r is Ok ==> r->Ok_0.0 == le_value(bytes@.take(8)),
    {
        match safe_split_at(bytes, 8) {
            Err(e) => Err(e),
            Ok((num_bytes, rem)) => {
                let x: u64 = read_le(num_bytes, 8);
                proof {
                    lemma_le_digits_of_value(bytes@.take(8));
                    assert(num_bytes@.take(8) =~= bytes@.take(8));
                    assert(bytes@ =~= bytes@.take(8) + rem@);
                }
                Ok((x, rem))
            },
        }
    }

    proof fn lemma_frame_within(bytes: Seq<u8>) {
    }

    proof fn lemma_frame_of_encoding(&self, rest: Seq<u8>) {
        lemma_le_digits_len(*self as nat, 8);
    }

    proof fn lemma_encoding_unique(&self, other: &Self) {
        lemma_pow256_values();
        lemma_le_value_of_digits(*self as nat, 8);
        lemma_le_value_of_digits(*other as nat, 8);
    }
}

/// The encodings of the items of `items`, one after the other.
pub open spec fn seq_encoding<T: ToBytes>(items: Seq<T>) -> Seq<u8>
    decreases items.len(),
{
    if items.len() == 0 {
        Seq::empty()
    } else {
        items[0].encoding() + seq_encoding(items.skip(1))
    }
}

/// How `count` values of type `T`, one after the other, are framed at the front of
/// `bytes`: the number of bytes they occupy together, or the first failure.
pub open spec fn seq_frame<T: FromBytes>(bytes: Seq<u8>, count: nat) -> Result<nat, Error>
    decreases count,
{
    if count == 0 {
        Ok(0)
    } else {
        match T::frame(bytes) {
            Err(e) => Err(e),
            Ok(k) => match seq_frame::<T>(bytes.skip(k as int), (count - 1) as nat) {
                Err(e) => Err(e),
                Ok(m) => Ok(k + m),
            },
        }
    }
}

/// Encoding a sequence with one more item appends that item's encoding.
pub proof fn lemma_seq_encoding_push<T: ToBytes>(items: Seq<T>, item: T)
    ensures
        seq_encoding(items.push(item)) == seq_encoding(items) + item.encoding(),
    decreases items.len(),
{
    let longer = items.push(item);
    assert(seq_encoding(longer) == longer[0].encoding() + seq_encoding(longer.skip(1)));
    if items.len() == 0 {
        assert(longer.skip(1) =~= Seq::<T>::empty());
        assert(seq_encoding(longer.skip(1)) =~= Seq::<u8>::empty());
        assert(seq_encoding(items) =~= Seq::<u8>::empty());
        assert(seq_encoding(longer) =~= seq_encoding(items) + item.encoding());
    } else {
        lemma_seq_encoding_push(items.skip(1), item);
        assert(longer.skip(1) =~= items.skip(1).push(item));
        assert(longer[0] == items[0]);
        assert(seq_encoding(longer) =~= seq_encoding(items) + item.encoding());
    }
}

/// A string of bytes, each encoded as itself, is encoded as itself.
pub proof fn lemma_seq_encoding_bytes(items: Seq<u8>)
    ensures
        seq_encoding(items) == items,
    decreases items.len(),
{
    if items.len() > 0 {
        lemma_seq_encoding_bytes(items.skip(1));
    }
    assert(seq_encoding(items) =~= items);
}

/// The encodings of items that can be read back, whatever follows them, are framed
/// as exactly themselves.
pub proof fn lemma_seq_frame_of_encoding<T: FromBytes>(items: Seq<T>, rest: Seq<u8>)
    requires
        forall|i: int| 0 <= i < items.len() ==> (#[trigger] items[i]).encodable(),
    ensures
        seq_frame::<T>(seq_encoding(items) + rest, items.len()) == Ok::<nat, Error>(
            seq_encoding(items).len(),
        ),
    decreases items.len(),
{
    if items.len() > 0 {
        let first = items[0];
        let tail = items.skip(1);
        let after = seq_encoding(tail) + rest;
        first.lemma_frame_of_encoding(after);
        assert(seq_encoding(items) + rest =~= first.encoding() + after);
        assert((first.encoding() + after).skip(first.encoding().len() as int) =~= after);
        assert forall|i: int| 0 <= i < tail.len() implies (#[trigger] tail[i]).encodable() by {
            assert(tail[i] == items[i + 1]);
        }
        lemma_seq_frame_of_encoding::<T>(tail, rest);
    }
}

/// Framing `count + 1` values is framing `count` of them and then one more.
pub proof fn lemma_seq_frame_step<T: FromBytes>(bytes: Seq<u8>, count: nat)
    ensures
        seq_frame::<T>(bytes, count + 1) == match seq_frame::<T>(bytes, count) {
            Err(e) => Err::<nat, Error>(e),
            Ok(n) => match T::frame(bytes.skip(n as int)) {
                Err(e) => Err(e),
                Ok(k) => Ok(n + k),
            },
        },
        seq_frame::<T>(bytes, count) is Ok ==> seq_frame::<T>(bytes, count)->Ok_0 <= bytes.len(),
    decreases count,
{
    if count == 0 {
        assert(bytes.skip(0) =~= bytes);
        reveal_with_fuel(seq_frame, 2);
    } else {
        T::lemma_frame_within(bytes);
        match T::frame(bytes) {
            Err(e) => {},
            Ok(k) => {
                lemma_seq_frame_step::<T>(bytes.skip(k as int), (count - 1) as nat);
                match seq_frame::<T>(bytes.skip(k as int), (count - 1) as nat) {
                    Err(e) => {},
                    Ok(m) => {
                        assert(bytes.skip(k as int).skip(m as int) =~= bytes.skip((k + m) as int));
                    },
                }
            },
        }
    }
}

/// Reads the four-byte count at the front of `bytes`.
pub fn read_count(bytes: &[u8]) -> (r: Result<(usize, &[u8]), Error>)
    ensures
        bytes@.len() < 4 ==> r == Err::<(usize, &[u8]), Error>(Error::EarlyEndOfStream),
        bytes@.len() >= 4 ==> r is Ok && r->Ok_0.0 == le_value(bytes@.take(4)) && r->Ok_0.1@
            == bytes@.skip(4) && r->Ok_0.0 < 0x1_0000_0000,
{
    match safe_split_at(bytes, 4) {
        Err(e) => Err(e),
        Ok((num_bytes, rem)) => {
            let wide: u64 = read_le(num_bytes, 4);
            proof {
                lemma_pow256_values();
                lemma_le_digits_of_value(bytes@.take(4));
                assert(num_bytes@.take(4) =~= bytes@.take(4));
            }
            Ok((wide as usize, rem))
        },
    }
}

impl<T: ToBytes> ToBytes for Vec<T> {
    open spec fn encoding(&self) -> Seq<u8> {
        counted_encoding(self@)
    }

    open spec fn encodable(&self) -> bool {
        counted_encodable(self@)
    }

    fn to_bytes(&self) -> (bytes: Vec<u8>) {
        let mut result: Vec<u8> = Vec::new();
        write_le(&mut result, self.len() as u64, 4);
        let mut i: usize = 0;
        while i < self.len()
            invariant
                i <= self@.len(),
                result@ == le_digits(self@.len(), 4) + seq_encoding(self@.take(i as int)),
            decreases self@.len() - i,
        {
            let mut item = self[i].to_bytes();
            proof {
                lemma_seq_encoding_push(self@.take(i as int), self@[i as int]);
                assert(self@.take(i as int).push(self@[i as int]) =~= self@.take(i + 1));
            }
            result.append(&mut item);
            assert(result@ =~= le_digits(self@.len(), 4) + seq_encoding(self@.take(i + 1)));
            i = i + 1;
        }
        assert(self@.take(i as int) =~= self@);
        result
    }
}

/// Sequences of equally many values whose encodings, each followed by some bytes, are
/// the same bytes hold the same values, followed by the same bytes.
pub proof fn lemma_seq_encoding_unique<T: FromBytes>(
    a: Seq<T>,
    a_rest: Seq<u8>,
    b: Seq<T>,
    b_rest: Seq<u8>,
)
    requires
        a.len() == b.len(),
        forall|i: int| 0 <= i < a.len() ==> (#[trigger] a[i]).encodable(),
        forall|i: int| 0 <= i < b.len() ==> (#[trigger] b[i]).encodable(),
        seq_encoding(a) + a_rest == seq_encoding(b) + b_rest,
    ensures
        forall|i: int| 0 <= i < a.len() ==> (#[trigger] a[i]).deep_view() == b[i].deep_view(),
        seq_encoding(a) == seq_encoding(b),
        a_rest == b_rest,
    decreases a.len(),
{
    if a.len() == 0 {
        assert(seq_encoding(a) + a_rest =~= a_rest);
        assert(seq_encoding(b) + b_rest =~= b_rest);
    } else {
        let a_after = seq_encoding(a.skip(1)) + a_rest;
        let b_after = seq_encoding(b.skip(1)) + b_rest;
        assert(seq_encoding(a) + a_rest =~= a[0].encoding() + a_after);
        assert(seq_encoding(b) + b_rest =~= b[0].encoding() + b_after);
        lemma_round_trip::<T>(a[0], a_after, b[0], b_after);
        assert forall|i: int| 0 <= i < a.skip(1).len() implies (#[trigger] a.skip(1)[i]).encodable() by {
            assert(a.skip(1)[i] == a[i + 1]);
        }
        assert forall|i: int| 0 <= i < b.skip(1).len() implies (#[trigger] b.skip(1)[i]).encodable() by {
            assert(b.skip(1)[i] == b[i + 1]);
        }
        lemma_seq_encoding_unique::<T>(a.skip(1), a_rest, b.skip(1), b_rest);
        assert forall|i: int| 0 <= i < a.len() implies (#[trigger] a[i]).deep_view()
            == b[i].deep_view() by {
            if i > 0 {
                assert(a.skip(1)[i - 1] == a[i]);
                assert(b.skip(1)[i - 1] == b[i]);
            }
        }
    }
}

/// The layout of a sequence: a four-byte count, then the items one after the other.
pub open spec fn counted_encoding<T: ToBytes>(items: Seq<T>) -> Seq<u8> {
    le_digits(items.len(), 4) + seq_encoding(items)
}

/// Whether the count of `items` fits four bytes and each item can be read back.
pub open spec fn counted_encodable<T: ToBytes>(items: Seq<T>) -> bool {
    &&& items.len() < 0x1_0000_0000
    &&& forall|i: int| 0 <= i < items.len() ==> (#[trigger] items[i]).encodable()
}

/// The layout of a sequence, whatever follows it, is framed as exactly itself.
pub proof fn lemma_counted_frame<T: FromBytes>(items: Seq<T>, rest: Seq<u8>)
    requires
        counted_encodable(items),
    ensures
        Vec::<T>::frame(counted_encoding(items) + rest) == Ok::<nat, Error>(
            counted_encoding(items).len(),
        ),
{
    let all = counted_encoding(items) + rest;
    lemma_pow256_values();
    lemma_le_digits_len(items.len(), 4);
    lemma_le_value_of_digits(items.len(), 4);
    assert(all.take(4) =~= le_digits(items.len(), 4));
    assert(all.skip(4) =~= seq_encoding(items) + rest);
    lemma_seq_frame_of_encoding::<T>(items, rest);
}

/// Sequences with the same layout hold the same values.
pub proof fn lemma_counted_unique<T: FromBytes>(a: Seq<T>, b: Seq<T>)
    requires
        counted_encodable(a),
        counted_encodable(b),
        counted_encoding(a) == counted_encoding(b),
    ensures
        a.len() == b.len(),
        forall|i: int| 0 <= i < a.len() ==> (#[trigger] a[i]).deep_view() == b[i].deep_view(),
{
    let all = counted_encoding(a);
    lemma_pow256_values();
    lemma_le_digits_len(a.len(), 4);
    lemma_le_digits_len(b.len(), 4);
    lemma_le_value_of_digits(a.len(), 4);
    lemma_le_value_of_digits(b.len(), 4);
    assert(all.take(4) =~= le_digits(a.len(), 4));
    assert(all.take(4) =~= le_digits(b.len(), 4));
    assert(all.skip(4) =~= seq_encoding(a));
    assert(all.skip(4) =~= seq_encoding(b));
    assert(seq_encoding(a) + Seq::<u8>::empty() =~= seq_encoding(b) + Seq::<u8>::empty());
    lemma_seq_encoding_unique::<T>(a, Seq::empty(), b, Seq::empty());
}

impl<T: FromBytes> FromBytes for Vec<T> {
    open spec fn frame(bytes: Seq<u8>) -> Result<nat, Error> {
        if bytes.len() < 4 {
            Err(Error::EarlyEndOfStream)
        } else {
            match seq_frame::<T>(bytes.skip(4), le_value(bytes.take(4))) {
                Err(e) => Err(e),
                Ok(n) => Ok(4 + n),
            }
        }
    }

    fn from_bytes(bytes: &[u8]) -> (r: Result<(Self, &[u8]), Error>) {
        match read_count(bytes) {
            Err(e) => Err(e),
            Ok((size, rest)) => {
                let mut result: Vec<T> = Vec::new();
                let mut stream = rest;
                let mut i: usize = 0;
                proof {
                    assert(rest@.skip(0) =~= rest@);
                    assert(rest@ =~= seq_encoding(result@) + stream@);
                }
                while i < size
                    invariant
                        i <= size,
                        bytes@.len() >= 4,
                        size == le_value(bytes@.take(4)),
                        rest@ == bytes@.skip(4),
                        result@.len() == i,
                        forall|j: int| 0 <= j < i ==> (#[trigger] result@[j]).encodable(),
                        rest@ == seq_encoding(result@) + stream@,
                        seq_frame::<T>(rest@, i as nat) == Ok::<nat, Error>(
                            seq_encoding(result@).len(),
                        ),
                    decreases size - i,
                {
                    proof {
                        lemma_seq_frame_step::<T>(rest@, i as nat);
                        assert(rest@.skip(seq_encoding(result@).len() as int) =~= stream@);
                    }
                    match T::from_bytes(stream) {
                        Err(e) => {
                            proof {
                                lemma_seq_frame_fails::<T>(rest@, (i + 1) as nat, size as nat);
                            }
                            return Err(e);
                        },
                        Ok((t, rem)) => {
                            proof {
                                lemma_seq_encoding_push(result@, t);
                                assert(rest@ =~= seq_encoding(result@.push(t)) + rem@);
                            }
                            result.push(t);
                            stream = rem;
                        },
                    }
                    i = i + 1;
                }
                proof {
                    lemma_le_digits_of_value(bytes@.take(4));
                    assert(bytes@ =~= bytes@.take(4) + rest@);
                    assert(bytes@ =~= result.encoding() + stream@);
                }
                Ok((result, stream))
            },
        }
    }

    proof fn lemma_frame_within(bytes: Seq<u8>) {
        if bytes.len() >= 4 {
            lemma_seq_frame_step::<T>(bytes.skip(4), le_value(bytes.take(4)));
        }
    }

    proof fn lemma_frame_of_encoding(&self, rest: Seq<u8>) {
        lemma_counted_frame::<T>(self@, rest);
    }

    proof fn lemma_encoding_unique(&self, other: &Self) {
        lemma_counted_unique::<T>(self@, other@);
        assert(self.deep_view() =~= other.deep_view());
    }
}

/// Where the first `done` values cannot be framed, no larger number of them can.
pub proof fn lemma_seq_frame_fails<T: FromBytes>(bytes: Seq<u8>, done: nat, count: nat)
    requires
        done <= count,
        seq_frame::<T>(bytes, done) is Err,
    ensures
        seq_frame::<T>(bytes, count) == seq_frame::<T>(bytes, done),
    decreases count - done,
{
    if done < count {
        lemma_seq_frame_step::<T>(bytes, done);
        lemma_seq_frame_fails::<T>(bytes, done + 1, count);
    }
}

impl<T: ToBytes> ToBytes for Option<T> {
    open spec fn encoding(&self) -> Seq<u8> {
        match self {
            None => le_digits(0, 4),
            Some(v) => le_digits(1, 4) + v.encoding(),
        }
    }

    open spec fn encodable(&self) -> bool {
        match self {
            None => true,
            Some(v) => v.encodable(),
        }
    }

    fn to_bytes(&self) -> (bytes: Vec<u8>) {
        let mut result: Vec<u8> = Vec::new();
        match self {
            Some(v) => {
                let mut value = v.to_bytes();
                write_le(&mut result, 1, 4);
                result.append(&mut value);
            },
            None => {
                write_le(&mut result, 0, 4);
            },
        }
        assert(result@ =~= self.encoding());
        result
    }
}

impl<T: FromBytes> FromBytes for Option<T> {
    open spec fn frame(bytes: Seq<u8>) -> Result<nat, Error> {
        if bytes.len() < 4 {
            Err(Error::EarlyEndOfStream)
        } else if le_value(bytes.take(4)) == 0 {
            Ok(4)
        } else if le_value(bytes.take(4)) == 1 {
            match T::frame(bytes.skip(4)) {
                Err(e) => Err(e),
                Ok(k) => Ok(4 + k),
            }
        } else {
            Err(Error::FormattingError)
        }
    }

    fn from_bytes(bytes: &[u8]) -> (r: Result<(Self, &[u8]), Error>) {
        match read_count(bytes) {
            Err(e) => Err(e),
            Ok((size, rest)) => {
                proof {
                    lemma_le_digits_of_value(bytes@.take(4));
                    lemma_le_digits_len(size as nat, 4);
                    assert(bytes@ =~= bytes@.take(4) + rest@);
                }
                if size == 0 {
                    Ok((None, rest))
                } else if size == 1 {
                    match T::from_bytes(rest) {
                        Err(e) => Err(e),
                        Ok((t, rem)) => {
                            proof {
                                assert(bytes@ =~= (le_digits(1, 4) + t.encoding()) + rem@);
                            }
                            Ok((Some(t), rem))
                        },
                    }
                } else {
                    Err(Error::FormattingError)
                }
            },
        }
    }

    proof fn lemma_frame_within(bytes: Seq<u8>) {
        if bytes.len() >= 4 {
            T::lemma_frame_within(bytes.skip(4));
        }
    }

    proof fn lemma_frame_of_encoding(&self, rest: Seq<u8>) {
        let all = self.encoding() + rest;
        lemma_pow256_values();
        match self {
            None => {
                lemma_le_digits_len(0, 4);
                lemma_le_value_of_digits(0, 4);
                assert(all.take(4) =~= le_digits(0, 4));
            },
            Some(v) => {
                lemma_le_digits_len(1, 4);
                lemma_le_value_of_digits(1, 4);
                assert(all.take(4) =~= le_digits(1, 4));
                assert(all.skip(4) =~= v.encoding() + rest);
                v.lemma_frame_of_encoding(rest);
            },
        }
    }

    proof fn lemma_encoding_unique(&self, other: &Self) {
        let all = self.encoding();
        lemma_pow256_values();
        lemma_le_digits_len(0, 4);
        lemma_le_digits_len(1, 4);
        lemma_le_value_of_digits(0, 4);
        lemma_le_value_of_digits(1, 4);
        match (self, other) {
            (Some(a), Some(b)) => {
                assert(all.skip(4) =~= a.encoding());
                assert(all.skip(4) =~= b.encoding());
                a.lemma_encoding_unique(b);
            },
            (Some(a), None) => {
                assert(all.take(4) =~= le_digits(1, 4));
                assert(all.take(4) =~= le_digits(0, 4));
            },
            (None, Some(b)) => {
                assert(all.take(4) =~= le_digits(1, 4));
                assert(all.take(4) =~= le_digits(0, 4));
            },
            (None, None) => {},
        }
    }
}

impl ToBytes for () {
    open spec fn encoding(&self) -> Seq<u8> {
        Seq::empty()
    }

    open spec fn encodable(&self) -> bool {
        true
    }

    fn to_bytes(&self) -> (bytes: Vec<u8>) {
        Vec::new()
    }
}

impl FromBytes for () {
    open spec fn frame(bytes: Seq<u8>) -> Result<nat, Error> {
        Ok(0)
    }

    fn from_bytes(bytes: &[u8]) -> (r: Result<(Self, &[u8]), Error>) {
        assert(bytes@ =~= ().encoding() + bytes@);
        Ok(((), bytes))
    }

    proof fn lemma_frame_within(bytes: Seq<u8>) {
    }

    proof fn lemma_frame_of_encoding(&self, rest: Seq<u8>) {
    }

    proof fn lemma_encoding_unique(&self, other: &Self) {
    }
}

impl ToBytes for [u8; 32] {
    open spec fn encoding(&self) -> Seq<u8> {
        le_digits(32, 4) + self@
    }

    open spec fn encodable(&self) -> bool {
        true
    }

    fn to_bytes(&self) -> (bytes: Vec<u8>) {
        let mut result: Vec<u8> = Vec::with_capacity(36);
        write_le(&mut result, 32, 4);
        write_bytes(&mut result, self.as_slice());
        result
    }
}

impl FromBytes for [u8; 32] {
    open spec fn frame(bytes: Seq<u8>) -> Result<nat, Error> {
        match Vec::<u8>::frame(bytes) {
            Err(e) => Err(e),
            Ok(n) => if n == 36 {
                Ok(36)
            } else {
                Err(Error::FormattingError)
            },
        }
    }

    fn from_bytes(bytes: &[u8]) -> (r: Result<(Self, &[u8]), Error>)
        ensures
            r is Ok ==> r->Ok_0.0@ == bytes@.subrange(4, 36),
    {
        match Vec::<u8>::from_bytes(bytes) {
            Err(e) => Err(e),
            Ok((bts, rem)) => {
                proof {
                    lemma_seq_encoding_bytes(bts@);
                    lemma_le_digits_len(bts@.len(), 4);
                }
                if bts.len() != 32 {
                    Err(Error::FormattingError)
                } else {
                    let mut array = [0u8;32];
                    let mut i: usize = 0;
                    while i < 32
                        invariant
                            i <= 32,
                            bts@.len() == 32,
                            forall|j: int| 0 <= j < i ==> array@[j] == bts@[j],
                        decreases 32 - i,
                    {
                        array[i] = bts[i];
                        i = i + 1;
                    }
                    assert(array@ =~= bts@);
                    assert(bytes@.subrange(4, 36) =~= bts@);
                    Ok((array, rem))
                }
            },
        }
    }

    proof fn lemma_frame_within(bytes: Seq<u8>) {
        Vec::<u8>::lemma_frame_within(bytes);
    }

    proof fn lemma_frame_of_encoding(&self, rest: Seq<u8>) {
        let all = self.encoding() + rest;
        lemma_pow256_values();
        lemma_le_digits_len(32, 4);
        lemma_le_value_of_digits(32, 4);
        lemma_seq_encoding_bytes(self@);
        assert(self@.len() == 32);
        assert(all.take(4) =~= le_digits(32, 4));
        assert(all.skip(4) =~= seq_encoding::<u8>(self@) + rest);
        lemma_seq_frame_of_encoding::<u8>(self@, rest);
    }

    proof fn lemma_encoding_unique(&self, other: &Self) {
        lemma_le_digits_len(32, 4);
        assert(self.encoding().skip(4) =~= self@);
        assert(other.encoding().skip(4) =~= other@);
        assert(self.deep_view() =~= other.deep_view());
    }
}

/// The number whose 32 binary digits are those of `x` in two's complement.
pub open spec fn twos_complement(x: i32) -> nat {
    if x >= 0 {
        x as nat
    } else {
        (x + 0x1_0000_0000) as nat
    }
}

impl ToBytes for i32 {
    open spec fn encoding(&self) -> Seq<u8> {
        le_digits(twos_complement(*self), 4)
    }

    open spec fn encodable(&self) -> bool {
        true
    }

    fn to_bytes(&self) -> (bytes: Vec<u8>) {
        let wide: i64 = *self as i64;
        let unsigned: u64 = if wide >= 0 {
            wide as u64
        } else {
            (wide + 0x1_0000_0000) as u64
        };
        let mut result = Vec::with_capacity(4);
        write_le(&mut result, unsigned, 4);
        result
    }
}

impl FromBytes for i32 {
    open spec fn frame(bytes: Seq<u8>) -> Result<nat, Error> {
        if bytes.len() < 4 {
            Err(Error::EarlyEndOfStream)
        } else {
            Ok(4)
        }
    }

    fn from_bytes(bytes: &[u8]) -> (r: Result<(Self, &[u8]), Error>) {
        match safe_split_at(bytes, 4) {
            Err(e) => Err(e),
            Ok((num_bytes, rem)) => {
                let unsigned: u64 = read_le(num_bytes, 4);
                proof {
                    lemma_pow256_values();
                    lemma_le_digits_of_value(bytes@.take(4));
                    assert(num_bytes@.take(4) =~= bytes@.take(4));
                    assert(bytes@ =~= bytes@.take(4) + rem@);
                }
                let wide: i64 = unsigned as i64;
                let x: i32 = if wide < 0x8000_0000 {
                    wide as i32
                } else {
                    (wide - 0x1_0000_0000) as i32
                };
                Ok((x, rem))
            },
        }
    }

    proof fn lemma_frame_within(bytes: Seq<u8>) {
    }

    proof fn lemma_frame_of_encoding(&self, rest: Seq<u8>) {
        lemma_le_digits_len(twos_complement(*self), 4);
    }

    proof fn lemma_encoding_unique(&self, other: &Self) {
        lemma_pow256_values();
        lemma_le_value_of_digits(twos_complement(*self), 4);
        lemma_le_value_of_digits(twos_complement(*other), 4);
    }
}

impl ToBytes for str {
    /// A four-byte count of bytes, then the characters in UTF-8.
    open spec fn encoding(&self) -> Seq<u8> {
        le_digits(encode_utf8(self@).len(), 4) + encode_utf8(self@)
    }

    open spec fn encodable(&self) -> bool {
        encode_utf8(self@).len() < 0x1_0000_0000
    }

    fn to_bytes(&self) -> (bytes: Vec<u8>) {
        let bytes = self.as_bytes();
        let mut result = Vec::new();
        write_le(&mut result, bytes.len() as u64, 4);
        write_bytes(&mut result, bytes);
        result
    }
}

impl ToBytes for String {
    /// A four-byte count of bytes, then the characters in UTF-8.
    open spec fn encoding(&self) -> Seq<u8> {
        le_digits(encode_utf8(self@).len(), 4) + encode_utf8(self@)
    }

    open spec fn encodable(&self) -> bool {
        encode_utf8(self@).len() < 0x1_0000_0000
    }

    fn to_bytes(&self) -> (bytes: Vec<u8>) {
        self.as_str().to_bytes()
    }
}

/// `String::from_utf8` of std: the string whose UTF-8 bytes are `bytes`, and none
/// where `bytes` are not UTF-8.
#[verifier::external_body]
fn string_from_utf8(bytes: Vec<u8>) -> (r: Option<String>)
    ensures
        r is Some <==> valid_utf8(bytes@),
        r is Some ==> r->Some_0@ == decode_utf8(bytes@),
{
    match String::from_utf8(bytes) {
        Ok(s) => Some(s),
        Err(_) => None,
    }
}

impl FromBytes for String {
    /// The bytes are framed as a byte string; bytes that are not UTF-8 are no string.
    open spec fn frame(bytes: Seq<u8>) -> Result<nat, Error> {
        match Vec::<u8>::frame(bytes) {
            Err(e) => Err(e),
            Ok(n) => if valid_utf8(bytes.subrange(4, n as int)) {
                Ok(n)
            } else {
                Err(Error::FormattingError)
            },
        }
    }

    fn from_bytes(bytes: &[u8]) -> (r: Result<(Self, &[u8]), Error>) {
        match Vec::<u8>::from_bytes(bytes) {
            Err(e) => Err(e),
            Ok((str_bytes, rem)) => {
                proof {
                    lemma_seq_encoding_bytes(str_bytes@);
                    lemma_le_digits_len(str_bytes@.len(), 4);
                    assert(bytes@.subrange(4, str_bytes.encoding().len() as int) =~= str_bytes@);
                    if valid_utf8(str_bytes@) {
                        decode_utf8_encode_utf8(str_bytes@);
                    }
                }
                match string_from_utf8(str_bytes) {
                    None => Err(Error::FormattingError),
                    Some(string) => Ok((string, rem)),
                }
            },
        }
    }

    proof fn lemma_frame_within(bytes: Seq<u8>) {
        Vec::<u8>::lemma_frame_within(bytes);
    }

    proof fn lemma_frame_of_encoding(&self, rest: Seq<u8>) {
        let body = encode_utf8(self@);
        let all = self.encoding() + rest;
        lemma_seq_encoding_bytes(body);
        lemma_le_digits_len(body.len(), 4);
        assert(counted_encoding::<u8>(body) =~= self.encoding());
        lemma_counted_frame::<u8>(body, rest);
        assert(all.subrange(4, self.encoding().len() as int) =~= body);
        encode_utf8_valid_utf8(self@);
    }

    proof fn lemma_encoding_unique(&self, other: &Self) {
        lemma_le_digits_len(encode_utf8(self@).len(), 4);
        lemma_le_digits_len(encode_utf8(other@).len(), 4);
        assert(self.encoding().skip(4) =~= encode_utf8(self@));
        assert(other.encoding().skip(4) =~= encode_utf8(other@));
        encode_utf8_decode_utf8(self@);
        encode_utf8_decode_utf8(other@);
    }
}

/// Whether two byte strings are the same.
pub fn bytes_equal(a: &[u8], b: &[u8]) -> (r: bool)
    ensures
        r == (a@ == b@),
{
    if a.len() != b.len() {
        return false;
    }
    let mut i: usize = 0;
    while i < a.len()
        invariant
            i <= a@.len(),
            a@.len() == b@.len(),
            forall|j: int| 0 <= j < i ==> a@[j] == b@[j],
        decreases a@.len() - i,
    {
        if a[i] != b[i] {
            return false;
        }
        i = i + 1;
    }
    assert(a@ =~= b@);
    true
}

} // verus!
