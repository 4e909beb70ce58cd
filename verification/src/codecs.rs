//! The generic encode/decode framework and the fixed-width integer codecs.
//!
//! Every wire type implements [`Encode`] and/or [`Decode`] against an exact
//! byte-level specification: `enc` gives the bytes a value encodes to, `dec`
//! gives the value and consumed length any byte string decodes to, or the
//! exact failure. The [`Codec`] trait adds the proved laws: round trip and
//! truncation safety.

pub mod containers;
pub mod text;

use vstd::prelude::*;

use crate::error::Error;

verus! {

/// The big-endian bytes of a 16-bit signed integer.
pub open spec fn be16_enc(v: i16) -> Seq<u8> {
    seq![((v as u16) >> 8) as u8, (v as u16) as u8]
}

/// The 16-bit signed integer read big-endian from two bytes.
pub open spec fn be16_val(b0: u8, b1: u8) -> i16 {
    (((b0 as u16) << 8) | (b1 as u16)) as i16
}

/// The big-endian bytes of a 32-bit signed integer.
pub open spec fn be32_enc(v: i32) -> Seq<u8> {
    seq![
        ((v as u32) >> 24) as u8,
        ((v as u32) >> 16) as u8,
        ((v as u32) >> 8) as u8,
        (v as u32) as u8,
    ]
}

/// The 32-bit signed integer read big-endian from four bytes.
pub open spec fn be32_val(b0: u8, b1: u8, b2: u8, b3: u8) -> i32 {
    (((b0 as u32) << 24) | ((b1 as u32) << 16) | ((b2 as u32) << 8) | (b3 as u32)) as i32
}

/// The big-endian bytes of a 64-bit signed integer.
pub open spec fn be64_enc(v: i64) -> Seq<u8> {
    seq![
        ((v as u64) >> 56) as u8,
        ((v as u64) >> 48) as u8,
        ((v as u64) >> 40) as u8,
        ((v as u64) >> 32) as u8,
        ((v as u64) >> 24) as u8,
        ((v as u64) >> 16) as u8,
        ((v as u64) >> 8) as u8,
        (v as u64) as u8,
    ]
}

/// The 64-bit signed integer read big-endian from eight bytes.
pub open spec fn be64_val(
    b0: u8,
    b1: u8,
    b2: u8,
    b3: u8,
    b4: u8,
    b5: u8,
    b6: u8,
    b7: u8,
) -> i64 {
    (((b0 as u64) << 56) | ((b1 as u64) << 48) | ((b2 as u64) << 40) | ((b3 as u64) << 32) | ((
    b4 as u64) << 24) | ((b5 as u64) << 16) | ((b6 as u64) << 8) | (b7 as u64)) as i64
}

pub proof fn lemma_be16_round_trip(v: i16)
    ensures
        be16_val(be16_enc(v)[0], be16_enc(v)[1]) == v,
{
    let x = v as u16;
    assert(((((x >> 8) as u8 as u16) << 8) | ((x as u8) as u16)) as i16 == x as i16)
        by (bit_vector);
    assert((v as u16) as i16 == v) by (bit_vector);
}

pub proof fn lemma_be32_round_trip(v: i32)
    ensures
        be32_val(be32_enc(v)[0], be32_enc(v)[1], be32_enc(v)[2], be32_enc(v)[3]) == v,
{
    let x = v as u32;
    assert(((((x >> 24) as u8 as u32) << 24) | (((x >> 16) as u8 as u32) << 16) | (((x
        >> 8) as u8 as u32) << 8) | ((x as u8) as u32)) as i32 == x as i32) by (bit_vector);
    assert((v as u32) as i32 == v) by (bit_vector);
}

pub proof fn lemma_be64_round_trip(v: i64)
    ensures
        be64_val(
            be64_enc(v)[0],
            be64_enc(v)[1],
            be64_enc(v)[2],
            be64_enc(v)[3],
            be64_enc(v)[4],
            be64_enc(v)[5],
            be64_enc(v)[6],
            be64_enc(v)[7],
        ) == v,
{
    let x = v as u64;
    assert(((((x >> 56) as u8 as u64) << 56) | (((x >> 48) as u8 as u64) << 48) | (((x
        >> 40) as u8 as u64) << 40) | (((x >> 32) as u8 as u64) << 32) | (((x
        >> 24) as u8 as u64) << 24) | (((x >> 16) as u8 as u64) << 16) | (((x
        >> 8) as u8 as u64) << 8) | ((x as u8) as u64)) as i64 == x as i64) by (bit_vector);
    assert((v as u64) as i64 == v) by (bit_vector);
}

/// A value with an exact wire encoding.
pub trait Encode: DeepView + Sized {
    /// Whether the value can be represented on the wire: every string fits
    /// its 16-bit length prefix and every sequence its 32-bit count prefix.
    spec fn wf(m: <Self as DeepView>::V) -> bool;

    /// The exact wire bytes of the value.
    spec fn enc(m: <Self as DeepView>::V) -> Seq<u8>;

    /// Appends the wire encoding of `self` to `out`. Succeeds exactly on
    /// well-formed values; on failure `out` holds partial output and must be
    /// discarded.
    fn encode(&self, out: &mut Vec<u8>) -> (r: Result<(), Error>)
        ensures
            r is Ok <==> Self::wf(self.deep_view()),
            r is Ok ==> final(out)@ == old(out)@ + Self::enc(self.deep_view()),
            r is Err ==> r == Err::<(), Error>(Error::Encoding),
    ;
}

/// A value with an exact wire decoding.
pub trait Decode: DeepView + Sized {
    /// What a byte string decodes to: the abstract value and the number of
    /// bytes consumed, or the exact failure.
    spec fn dec(b: Seq<u8>) -> Result<(<Self as DeepView>::V, int), Error>;

    /// Reads one value from `data` starting at `pos` and returns it with the
    /// position just past the bytes consumed, succeeding and failing exactly
    /// as `dec` says of the bytes from `pos` on; never reads past the end.
    fn decode(data: &Vec<u8>, pos: usize) -> (r: Result<(Self, usize), Error>)
        requires
            pos <= data.len(),
        ensures
            match Self::dec(data@.skip(pos as int)) {
                Ok((m, n)) => match r {
                    Ok((v, q)) => v.deep_view() == m && q == pos + n && q <= data.len(),
                    Err(_) => false,
                },
                Err(e) => r == Err::<(Self, usize), Error>(e),
            },
    ;

    /// A successful parse consumes at least one byte and never more than the
    /// input holds.
    proof fn lemma_dec_bounds(b: Seq<u8>)
        ensures
            Self::dec(b) is Ok ==> 1 <= Self::dec(b)->Ok_0.1 <= b.len(),
    ;
}

/// A value that both encodes and decodes, with the symmetry laws proved.
pub trait Codec: Encode + Decode {
    /// Round trip: the encoding of any well-formed value, whatever bytes
    /// follow it, decodes to exactly that value, consuming exactly the
    /// encoding's bytes.
    proof fn lemma_round_trip(m: <Self as DeepView>::V, rest: Seq<u8>)
        requires
            Self::wf(m),
        ensures
            Self::dec(Self::enc(m) + rest) == Ok::<(<Self as DeepView>::V, int), Error>(
                (m, Self::enc(m).len() as int),
            ),
    ;

    /// No well-formed value encodes to an empty byte string.
    proof fn lemma_enc_len(m: <Self as DeepView>::V)
        requires
            Self::wf(m),
        ensures
            Self::enc(m).len() >= 1,
    ;

    /// Truncation safety: cutting the encoding of a well-formed value at any
    /// byte before its end makes decoding fail with a framing error.
    proof fn lemma_truncated(m: <Self as DeepView>::V, k: int)
        requires
            Self::wf(m),
            0 <= k < Self::enc(m).len(),
        ensures
            Self::dec(Self::enc(m).take(k)) == Err::<(<Self as DeepView>::V, int), Error>(
                Error::Framing,
            ),
    ;
}

/// Dropping a concatenation's first part leaves its second.
pub proof fn lemma_concat_skip<A>(a: Seq<A>, b: Seq<A>)
    ensures
        (a + b).skip(a.len() as int) == b,
{
    assert((a + b).skip(a.len() as int) =~= b);
}

/// Taking no more than a concatenation's first part takes from it alone.
pub proof fn lemma_concat_take_low<A>(a: Seq<A>, b: Seq<A>, k: int)
    requires
        0 <= k <= a.len(),
    ensures
        (a + b).take(k) == a.take(k),
{
    assert((a + b).take(k) =~= a.take(k));
}

/// Taking past a concatenation's first part keeps it whole.
pub proof fn lemma_concat_take_high<A>(a: Seq<A>, b: Seq<A>, k: int)
    requires
        a.len() <= k <= a.len() + b.len(),
    ensures
        (a + b).take(k) == a + b.take(k - a.len()),
{
    assert((a + b).take(k) =~= a + b.take(k - a.len()));
}

/// Two successive drops are one drop of the summed length.
pub proof fn lemma_skip_skip<A>(s: Seq<A>, i: int, j: int)
    requires
        0 <= i,
        0 <= j,
        i + j <= s.len(),
    ensures
        s.skip(i).skip(j) == s.skip(i + j),
{
    assert(s.skip(i).skip(j) =~= s.skip(i + j));
}

/// Concatenation is associative.
pub proof fn lemma_concat_assoc<A>(a: Seq<A>, b: Seq<A>, c: Seq<A>)
    ensures
        (a + b) + c == a + (b + c),
{
    assert((a + b) + c =~= a + (b + c));
}

/// Taking a whole sequence changes nothing.
pub proof fn lemma_take_all<A>(s: Seq<A>)
    ensures
        s.take(s.len() as int) == s,
{
    assert(s.take(s.len() as int) =~= s);
}

/// One decoding step over a well-formed field: the bytes that start with the
/// field's encoding decode to the field, and dropping what was consumed
/// leaves exactly the bytes that followed it.
pub proof fn lemma_step_ok<T: Codec>(mv: <T as DeepView>::V, tail: Seq<u8>)
    requires
        T::wf(mv),
    ensures
        T::dec(T::enc(mv) + tail) == Ok::<(<T as DeepView>::V, int), Error>(
            (mv, T::enc(mv).len() as int),
        ),
        (T::enc(mv) + tail).skip(T::enc(mv).len() as int) == tail,
{
    T::lemma_round_trip(mv, tail);
    lemma_concat_skip(T::enc(mv), tail);
}

/// One decoding step over a truncated input: a cut inside the field fails
/// with a framing error; a cut past it leaves the field intact and moves the
/// cut into the bytes that follow.
pub proof fn lemma_step_take<T: Codec>(mv: <T as DeepView>::V, tail: Seq<u8>, k: int)
    requires
        T::wf(mv),
        0 <= k <= T::enc(mv).len() + tail.len(),
    ensures
        k < T::enc(mv).len() ==> T::dec((T::enc(mv) + tail).take(k)) == Err::<
            (<T as DeepView>::V, int),
            Error,
        >(Error::Framing),
        k >= T::enc(mv).len() ==> {
            let e = T::enc(mv);
            &&& (e + tail).take(k) == e + tail.take(k - e.len())
            &&& T::dec((e + tail).take(k)) == Ok::<(<T as DeepView>::V, int), Error>(
                (mv, e.len() as int),
            )
            &&& (e + tail).take(k).skip(e.len() as int) == tail.take(k - e.len())
        },
{
    let e = T::enc(mv);
    if k < e.len() {
        lemma_concat_take_low(e, tail, k);
        T::lemma_truncated(mv, k);
    } else {
        lemma_concat_take_high(e, tail, k);
        T::lemma_round_trip(mv, tail.take(k - e.len()));
        lemma_concat_skip(e, tail.take(k - e.len()));
    }
}

impl Encode for i16 {
    open spec fn wf(m: i16) -> bool {
        true
    }

    open spec fn enc(m: i16) -> Seq<u8> {
        be16_enc(m)
    }

    fn encode(&self, out: &mut Vec<u8>) -> (r: Result<(), Error>) {
        let x = *self as u16;
        out.push((x >> 8) as u8);
        out.push(x as u8);
        assert(<i16 as Encode>::wf(self.deep_view()) && <i16 as Encode>::enc(self.deep_view())
            == be16_enc(*self));
        assert(out@ =~= old(out)@ + be16_enc(*self));
        Ok(())
    }
}

impl Decode for i16 {
    open spec fn dec(b: Seq<u8>) -> Result<(i16, int), Error> {
        if b.len() < 2 {
            Err(Error::Framing)
        } else {
            Ok((be16_val(b[0], b[1]), 2))
        }
    }

    fn decode(data: &Vec<u8>, pos: usize) -> (r: Result<(Self, usize), Error>) {
        let ghost b = data@.skip(pos as int);
        if data.len() - pos < 2 {
            assert(<i16 as Decode>::dec(b) == Err::<(i16, int), Error>(Error::Framing));
            return Err(Error::Framing);
        }
        let b0 = data[pos];
        let b1 = data[pos + 1];
        let v = ((((b0 as u16) << 8) | (b1 as u16))) as i16;
        assert(<i16 as Decode>::dec(b) == Ok::<(i16, int), Error>((be16_val(b[0], b[1]), 2)));
        Ok((v, pos + 2))
    }

    proof fn lemma_dec_bounds(b: Seq<u8>) {
    }
}

impl Codec for i16 {
    proof fn lemma_round_trip(m: i16, rest: Seq<u8>) {
        lemma_be16_round_trip(m);
        let b = Self::enc(m) + rest;
        assert(b[0] == be16_enc(m)[0]);
        assert(b[1] == be16_enc(m)[1]);
    }

    proof fn lemma_enc_len(m: i16) {
    }

    proof fn lemma_truncated(m: i16, k: int) {
    }
}

impl Encode for i32 {
    open spec fn wf(m: i32) -> bool {
        true
    }

    open spec fn enc(m: i32) -> Seq<u8> {
        be32_enc(m)
    }

    fn encode(&self, out: &mut Vec<u8>) -> (r: Result<(), Error>) {
        let x = *self as u32;
        out.push((x >> 24) as u8);
        out.push((x >> 16) as u8);
        out.push((x >> 8) as u8);
        out.push(x as u8);
        assert(<i32 as Encode>::wf(self.deep_view()) && <i32 as Encode>::enc(self.deep_view())
            == be32_enc(*self));
        assert(out@ =~= old(out)@ + be32_enc(*self));
        Ok(())
    }
}

impl Decode for i32 {
    open spec fn dec(b: Seq<u8>) -> Result<(i32, int), Error> {
        if b.len() < 4 {
            Err(Error::Framing)
        } else {
            Ok((be32_val(b[0], b[1], b[2], b[3]), 4))
        }
    }

    fn decode(data: &Vec<u8>, pos: usize) -> (r: Result<(Self, usize), Error>) {
        let ghost b = data@.skip(pos as int);
        if data.len() - pos < 4 {
            assert(<i32 as Decode>::dec(b) == Err::<(i32, int), Error>(Error::Framing));
            return Err(Error::Framing);
        }
        assert(<i32 as Decode>::dec(b) == Ok::<(i32, int), Error>(
            (be32_val(b[0], b[1], b[2], b[3]), 4),
        ));
        let b0 = data[pos];
        let b1 = data[pos + 1];
        let b2 = data[pos + 2];
        let b3 = data[pos + 3];
        let v = (((b0 as u32) << 24) | ((b1 as u32) << 16) | ((b2 as u32) << 8) | (b3 as u32))
            as i32;
        Ok((v, pos + 4))
    }

    proof fn lemma_dec_bounds(b: Seq<u8>) {
    }
}

impl Codec for i32 {
    proof fn lemma_round_trip(m: i32, rest: Seq<u8>) {
        lemma_be32_round_trip(m);
        let b = Self::enc(m) + rest;
        assert(b[0] == be32_enc(m)[0]);
        assert(b[1] == be32_enc(m)[1]);
        assert(b[2] == be32_enc(m)[2]);
        assert(b[3] == be32_enc(m)[3]);
    }

    proof fn lemma_enc_len(m: i32) {
    }

    proof fn lemma_truncated(m: i32, k: int) {
    }
}

impl Encode for i64 {
    open spec fn wf(m: i64) -> bool {
        true
    }

    open spec fn enc(m: i64) -> Seq<u8> {
        be64_enc(m)
    }

    fn encode(&self, out: &mut Vec<u8>) -> (r: Result<(), Error>) {
        let x = *self as u64;
        out.push((x >> 56) as u8);
        out.push((x >> 48) as u8);
        out.push((x >> 40) as u8);
        out.push((x >> 32) as u8);
        out.push((x >> 24) as u8);
        out.push((x >> 16) as u8);
        out.push((x >> 8) as u8);
        out.push(x as u8);
        assert(<i64 as Encode>::wf(self.deep_view()) && <i64 as Encode>::enc(self.deep_view())
            == be64_enc(*self));
        assert(out@ =~= old(out)@ + be64_enc(*self));
        Ok(())
    }
}

impl Decode for i64 {
    open spec fn dec(b: Seq<u8>) -> Result<(i64, int), Error> {
        if b.len() < 8 {
            Err(Error::Framing)
        } else {
            Ok((be64_val(b[0], b[1], b[2], b[3], b[4], b[5], b[6], b[7]), 8))
        }
    }

    fn decode(data: &Vec<u8>, pos: usize) -> (r: Result<(Self, usize), Error>) {
        let ghost b = data@.skip(pos as int);
        if data.len() - pos < 8 {
            assert(<i64 as Decode>::dec(b) == Err::<(i64, int), Error>(Error::Framing));
            return Err(Error::Framing);
        }
        assert(<i64 as Decode>::dec(b) == Ok::<(i64, int), Error>(
            (be64_val(b[0], b[1], b[2], b[3], b[4], b[5], b[6], b[7]), 8),
        ));
        let b0 = data[pos];
        let b1 = data[pos + 1];
        let b2 = data[pos + 2];
        let b3 = data[pos + 3];
        let b4 = data[pos + 4];
        let b5 = data[pos + 5];
        let b6 = data[pos + 6];
        let b7 = data[pos + 7];
        let v = (((b0 as u64) << 56) | ((b1 as u64) << 48) | ((b2 as u64) << 40) | ((b3 as u64)
            << 32) | ((b4 as u64) << 24) | ((b5 as u64) << 16) | ((b6 as u64) << 8) | (b7 as u64))
            as i64;
        Ok((v, pos + 8))
    }

    proof fn lemma_dec_bounds(b: Seq<u8>) {
    }
}

impl Codec for i64 {
    proof fn lemma_round_trip(m: i64, rest: Seq<u8>) {
        lemma_be64_round_trip(m);
        let b = Self::enc(m) + rest;
        assert(b[0] == be64_enc(m)[0]);
        assert(b[1] == be64_enc(m)[1]);
        assert(b[2] == be64_enc(m)[2]);
        assert(b[3] == be64_enc(m)[3]);
        assert(b[4] == be64_enc(m)[4]);
        assert(b[5] == be64_enc(m)[5]);
        assert(b[6] == be64_enc(m)[6]);
        assert(b[7] == be64_enc(m)[7]);
    }

    proof fn lemma_enc_len(m: i64) {
    }

    proof fn lemma_truncated(m: i64, k: int) {
    }
}

} // verus!
