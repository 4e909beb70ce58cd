//! The sequence codec: a 32-bit element count followed by each element's own
//! encoding, in order. A negative count, or one larger than the bytes that
//! remain, is rejected up front with a framing error, before anything is
//! allocated for the declared count.

use vstd::prelude::*;

use crate::codecs::{be32_enc, be32_val, lemma_be32_round_trip, lemma_concat_skip,
    lemma_concat_take_high, lemma_concat_take_low, lemma_skip_skip, lemma_take_all, Codec, Decode,
    Encode};
use crate::error::Error;

verus! {

/// The concatenated encodings of a sequence's elements, in order.
pub open spec fn elems_enc<T: Encode>(m: Seq<<T as DeepView>::V>) -> Seq<u8>
    decreases m.len(),
{
    if m.len() == 0 {
        Seq::empty()
    } else {
        T::enc(m[0]) + elems_enc::<T>(m.drop_first())
    }
}

/// Whether a sequence fits the wire: the count fits the 32-bit prefix and
/// every element is itself well-formed.
pub open spec fn seq_wf<T: Encode>(m: Seq<<T as DeepView>::V>) -> bool {
    &&& m.len() <= 0x7fff_ffff
    &&& forall|i: int| 0 <= i < m.len() ==> T::wf(m[i])
}

/// The wire bytes of a sequence: the 32-bit element count, then each
/// element's encoding in order.
pub open spec fn seq_enc<T: Encode>(m: Seq<<T as DeepView>::V>) -> Seq<u8> {
    be32_enc(m.len() as i32) + elems_enc::<T>(m)
}

/// What bytes decode to as `n` consecutive elements: the elements in order
/// with the total consumed length, or the first element failure.
pub open spec fn elems_dec<T: Decode>(b: Seq<u8>, n: int) -> Result<
    (Seq<<T as DeepView>::V>, int),
    Error,
>
    decreases n,
{
    if n <= 0 {
        Ok((Seq::empty(), 0))
    } else {
        match T::dec(b) {
            Err(e) => Err(e),
            Ok((mv, k)) => match elems_dec::<T>(b.skip(k), n - 1) {
                Err(e) => Err(e),
                Ok((ms, j)) => Ok((seq![mv] + ms, k + j)),
            },
        }
    }
}

/// What bytes decode to as a sequence: a framing error when the count prefix
/// is missing, negative, or declares more elements than bytes remain;
/// otherwise that many elements decoded in order.
pub open spec fn seq_dec<T: Decode>(b: Seq<u8>) -> Result<
    (Seq<<T as DeepView>::V>, int),
    Error,
> {
    if b.len() < 4 {
        Err(Error::Framing)
    } else {
        let n = be32_val(b[0], b[1], b[2], b[3]);
        if n < 0 {
            Err(Error::Framing)
        } else if b.len() - 4 < n {
            Err(Error::Framing)
        } else {
            match elems_dec::<T>(b.skip(4), n as int) {
                Err(e) => Err(e),
                Ok((ms, j)) => Ok((ms, 4 + j)),
            }
        }
    }
}

/// Unbounded-count rejection: a count prefix declaring more elements than
/// there are bytes after it fails at once with a framing error, before any
/// element is even looked at.
pub proof fn lemma_count_overrun<T: Decode>(b: Seq<u8>)
    requires
        b.len() >= 4,
        be32_val(b[0], b[1], b[2], b[3]) > b.len() - 4,
    ensures
        seq_dec::<T>(b) == Err::<(Seq<<T as DeepView>::V>, int), Error>(Error::Framing),
{
}

/// A successful element-sequence parse consumes at most the input and yields
/// exactly the declared count of elements.
pub proof fn lemma_elems_dec_bounds<T: Decode>(b: Seq<u8>, n: int)
    ensures
        elems_dec::<T>(b, n) is Ok ==> {
            let (ms, j) = elems_dec::<T>(b, n)->Ok_0;
            &&& 0 <= j <= b.len()
            &&& ms.len() == if n <= 0 {
                0int
            } else {
                n
            }
        },
    decreases n,
{
    if n <= 0 {
    } else {
        match T::dec(b) {
            Err(_) => {},
            Ok((mv, k)) => {
                T::lemma_dec_bounds(b);
                lemma_elems_dec_bounds::<T>(b.skip(k), n - 1);
            },
        }
    }
}

/// Well-formed elements encode to at least one byte each.
pub proof fn lemma_elems_enc_len<T: Codec>(m: Seq<<T as DeepView>::V>)
    requires
        forall|i: int| 0 <= i < m.len() ==> T::wf(m[i]),
    ensures
        elems_enc::<T>(m).len() >= m.len(),
    decreases m.len(),
{
    if m.len() == 0 {
    } else {
        T::lemma_enc_len(m[0]);
        lemma_elems_enc_len::<T>(m.drop_first());
    }
}

/// Round trip for element sequences: the concatenated encodings of `n`
/// well-formed elements, whatever follows them, decode back to exactly those
/// elements.
pub proof fn lemma_elems_round_trip<T: Codec>(m: Seq<<T as DeepView>::V>, rest: Seq<u8>)
    requires
        forall|i: int| 0 <= i < m.len() ==> T::wf(m[i]),
    ensures
        elems_dec::<T>(elems_enc::<T>(m) + rest, m.len() as int) == Ok::<
            (Seq<<T as DeepView>::V>, int),
            Error,
        >((m, elems_enc::<T>(m).len() as int)),
    decreases m.len(),
{
    if m.len() == 0 {
        assert(elems_enc::<T>(m) + rest =~= rest);
        assert(m =~= Seq::<<T as DeepView>::V>::empty());
    } else {
        let e0 = T::enc(m[0]);
        let tail = m.drop_first();
        let b = elems_enc::<T>(m) + rest;
        assert(b =~= e0 + (elems_enc::<T>(tail) + rest));
        T::lemma_round_trip(m[0], elems_enc::<T>(tail) + rest);
        lemma_concat_skip(e0, elems_enc::<T>(tail) + rest);
        lemma_elems_round_trip::<T>(tail, rest);
        assert(seq![m[0]] + tail =~= m);
    }
}

/// Truncation safety for element sequences: cutting the concatenated
/// encodings anywhere before their end makes decoding that many elements
/// fail with a framing error.
pub proof fn lemma_elems_truncated<T: Codec>(m: Seq<<T as DeepView>::V>, k: int)
    requires
        forall|i: int| 0 <= i < m.len() ==> T::wf(m[i]),
        0 <= k < elems_enc::<T>(m).len(),
    ensures
        elems_dec::<T>(elems_enc::<T>(m).take(k), m.len() as int) == Err::<
            (Seq<<T as DeepView>::V>, int),
            Error,
        >(Error::Framing),
    decreases m.len(),
{
    let e0 = T::enc(m[0]);
    let tail = m.drop_first();
    let b = elems_enc::<T>(m).take(k);
    T::lemma_enc_len(m[0]);
    if k < e0.len() {
        lemma_concat_take_low(e0, elems_enc::<T>(tail), k);
        T::lemma_truncated(m[0], k);
    } else {
        lemma_concat_take_high(e0, elems_enc::<T>(tail), k);
        T::lemma_round_trip(m[0], elems_enc::<T>(tail).take(k - e0.len()));
        lemma_concat_skip(e0, elems_enc::<T>(tail).take(k - e0.len()));
        lemma_elems_truncated::<T>(tail, k - e0.len());
    }
}

impl<T: Encode> Encode for Vec<T> {
    open spec fn wf(m: Seq<<T as DeepView>::V>) -> bool {
        seq_wf::<T>(m)
    }

    open spec fn enc(m: Seq<<T as DeepView>::V>) -> Seq<u8> {
        seq_enc::<T>(m)
    }

    fn encode(&self, out: &mut Vec<u8>) -> (r: Result<(), Error>) {
        let ghost out0 = out@;
        let ghost dv = self.deep_view();
        if self.len() > 0x7fff_ffff {
            return Err(Error::Encoding);
        }
        let n = self.len() as i32;
        let _ = n.encode(out);
        let ghost hdr = be32_enc(dv.len() as i32);
        let mut i: usize = 0;
        while i < self.len()
            invariant
                0 <= i <= self.len(),
                self.len() <= 0x7fff_ffff,
                dv == self.deep_view(),
                dv.len() == self@.len(),
                hdr == be32_enc(dv.len() as i32),
                out@ == out0 + hdr + elems_enc::<T>(dv.take(i as int)),
                forall|j: int| 0 <= j < i ==> T::wf(dv[j]),
            decreases self.len() - i,
        {
            let ghost out_pre = out@;
            match self[i].encode(out) {
                Ok(u) => {
                    proof {
                        lemma_elems_enc_snoc::<T>(dv, i as int);
                        assert(out@ =~= out0 + hdr + elems_enc::<T>(dv.take(i as int + 1)));
                    }
                },
                Err(e) => {
                    proof {
                        assert(dv[i as int] == self@[i as int].deep_view());
                        assert(!seq_wf::<T>(dv));
                    }
                    return Err(e);
                },
            }
            i += 1;
        }
        proof {
            lemma_take_all(dv);
            assert(out@ =~= out0 + seq_enc::<T>(dv));
        }
        Ok(())
    }
}

/// Appending one element to a prefix extends its concatenated encoding by
/// exactly that element's encoding.
pub proof fn lemma_elems_enc_snoc<T: Encode>(m: Seq<<T as DeepView>::V>, i: int)
    requires
        0 <= i < m.len(),
    ensures
        elems_enc::<T>(m.take(i + 1)) == elems_enc::<T>(m.take(i)) + T::enc(m[i]),
    decreases i,
{
    if i == 0 {
        assert(m.take(0) =~= Seq::<<T as DeepView>::V>::empty());
        assert(m.take(1).drop_first() =~= Seq::<<T as DeepView>::V>::empty());
        assert(elems_enc::<T>(m.take(1)) =~= elems_enc::<T>(m.take(0)) + T::enc(m[0]));
    } else {
        let tail = m.drop_first();
        assert(m.take(i + 1).drop_first() =~= tail.take(i));
        assert(m.take(i).drop_first() =~= tail.take(i - 1));
        lemma_elems_enc_snoc::<T>(tail, i - 1);
        assert((T::enc(m[0]) + elems_enc::<T>(tail.take(i - 1))) + T::enc(m[i]) =~= T::enc(m[0]) + (
        elems_enc::<T>(tail.take(i - 1)) + T::enc(m[i])));
    }
}

impl<T: Decode> Decode for Vec<T> {
    open spec fn dec(b: Seq<u8>) -> Result<(Seq<<T as DeepView>::V>, int), Error> {
        seq_dec::<T>(b)
    }

    fn decode(data: &Vec<u8>, pos: usize) -> (r: Result<(Self, usize), Error>) {
        let ghost b = data@.skip(pos as int);
        let (n, q0) = match <i32 as Decode>::decode(data, pos) {
            Ok(v) => v,
            Err(e) => {
                return Err(e);
            },
        };
        if n < 0 {
            return Err(Error::Framing);
        }
        let count = n as usize;
        if data.len() - q0 < count {
            return Err(Error::Framing);
        }
        proof {
            lemma_skip_skip(data@, pos as int, 4);
        }
        let mut elems: Vec<T> = Vec::new();
        let mut q: usize = q0;
        let mut i: usize = 0;
        proof {
            assert(elems.deep_view() =~= Seq::<<T as DeepView>::V>::empty());
            match elems_dec::<T>(data@.skip(q0 as int), count as int) {
                Ok((ms, j)) => {
                    assert(elems.deep_view() + ms =~= ms);
                },
                Err(_) => {},
            }
        }
        while i < count
            invariant
                pos + 4 == q0,
                q0 <= q <= data.len(),
                0 <= i <= count,
                count <= data.len() - q0,
                b == data@.skip(pos as int),
                b.len() >= 4,
                0 <= n,
                count == n as usize,
                be32_val(b[0], b[1], b[2], b[3]) == n,
                elems.deep_view().len() == i,
                match elems_dec::<T>(data@.skip(q as int), (count - i) as int) {
                    Ok((ms, j)) => elems_dec::<T>(b.skip(4), count as int) == Ok::<
                        (Seq<<T as DeepView>::V>, int),
                        Error,
                    >((elems.deep_view() + ms, (q - q0) + j)),
                    Err(e) => elems_dec::<T>(b.skip(4), count as int) == Err::<
                        (Seq<<T as DeepView>::V>, int),
                        Error,
                    >(e),
                },
            decreases count - i,
        {
            let ghost dv_pre = elems.deep_view();
            let ghost q_pre = q;
            match T::decode(data, q) {
                Err(e) => {
                    proof {
                        assert(elems_dec::<T>(data@.skip(q as int), (count - i) as int) == Err::<
                            (Seq<<T as DeepView>::V>, int),
                            Error,
                        >(e));
                    }
                    return Err(e);
                },
                Ok((v, q2)) => {
                    proof {
                        T::lemma_dec_bounds(data@.skip(q as int));
                        lemma_skip_skip(data@, q as int, q2 as int - q as int);
                    }
                    elems.push(v);
                    proof {
                        assert(elems.deep_view() =~= dv_pre.push(v.deep_view()));
                        match elems_dec::<T>(data@.skip(q2 as int), (count - i - 1) as int) {
                            Ok((ms2, j2)) => {
                                assert(dv_pre + (seq![v.deep_view()] + ms2) =~= elems.deep_view()
                                    + ms2);
                            },
                            Err(_) => {},
                        }
                    }
                    q = q2;
                    i += 1;
                },
            }
        }
        proof {
            assert(elems.deep_view() + Seq::<<T as DeepView>::V>::empty() =~= elems.deep_view());
        }
        Ok((elems, q))
    }

    proof fn lemma_dec_bounds(b: Seq<u8>) {
        if b.len() >= 4 {
            let n = be32_val(b[0], b[1], b[2], b[3]);
            if 0 <= n && n <= b.len() - 4 {
                lemma_elems_dec_bounds::<T>(b.skip(4), n as int);
            }
        }
    }
}

impl<T: Codec> Codec for Vec<T> {
    proof fn lemma_round_trip(m: Seq<<T as DeepView>::V>, rest: Seq<u8>) {
        let hdr = be32_enc(m.len() as i32);
        let body = elems_enc::<T>(m);
        let b = seq_enc::<T>(m) + rest;
        lemma_be32_round_trip(m.len() as i32);
        assert(b =~= hdr + (body + rest));
        assert(b[0] == hdr[0]);
        assert(b[1] == hdr[1]);
        assert(b[2] == hdr[2]);
        assert(b[3] == hdr[3]);
        lemma_elems_enc_len::<T>(m);
        lemma_concat_skip(hdr, body + rest);
        lemma_elems_round_trip::<T>(m, rest);
    }

    proof fn lemma_enc_len(m: Seq<<T as DeepView>::V>) {
    }

    proof fn lemma_truncated(m: Seq<<T as DeepView>::V>, k: int) {
        let hdr = be32_enc(m.len() as i32);
        let body = elems_enc::<T>(m);
        let b = seq_enc::<T>(m).take(k);
        if k < 4 {
        } else {
            lemma_concat_take_high(hdr, body, k);
            assert(b[0] == hdr[0]);
            assert(b[1] == hdr[1]);
            assert(b[2] == hdr[2]);
            assert(b[3] == hdr[3]);
            lemma_be32_round_trip(m.len() as i32);
            if m.len() <= k - 4 {
                lemma_concat_skip(hdr, body.take(k - 4));
                lemma_elems_truncated::<T>(m, k - 4);
            }
        }
    }
}

} // verus!
