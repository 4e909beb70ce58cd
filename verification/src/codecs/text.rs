//! The string codecs: a 16-bit byte-length prefix followed by the UTF-8
//! bytes, where a length of `-1` with no payload denotes an absent optional
//! string.

use vstd::prelude::*;
use vstd::slice::{slice_subrange, slice_to_vec};
use vstd::string::StrSliceExecFns;
use vstd::utf8::{decode_utf8, encode_utf8, encode_utf8_decode_utf8, encode_utf8_valid_utf8,
    valid_utf8};

use crate::codecs::{be16_enc, be16_val, lemma_be16_round_trip, lemma_concat_take_high, Codec,
    Decode, Encode};
use crate::error::Error;

verus! {

/// Whether a string's UTF-8 bytes fit the 16-bit length prefix.
pub open spec fn str_wf(m: Seq<char>) -> bool {
    encode_utf8(m).len() <= 0x7fff
}

/// The wire bytes of a string: the 16-bit byte length, then the UTF-8 bytes.
pub open spec fn str_enc(m: Seq<char>) -> Seq<u8> {
    be16_enc(encode_utf8(m).len() as i16) + encode_utf8(m)
}

/// What bytes decode to as a string: a framing error when the length prefix
/// is missing, negative, or longer than what remains; an encoding error when
/// the prefixed bytes are not valid UTF-8; their characters otherwise.
pub open spec fn str_dec(b: Seq<u8>) -> Result<(Seq<char>, int), Error> {
    if b.len() < 2 {
        Err(Error::Framing)
    } else {
        let n = be16_val(b[0], b[1]);
        if n < 0 {
            Err(Error::Framing)
        } else if b.len() - 2 < n {
            Err(Error::Framing)
        } else if valid_utf8(b.subrange(2, 2 + n)) {
            Ok((decode_utf8(b.subrange(2, 2 + n)), 2 + n))
        } else {
            Err(Error::Encoding)
        }
    }
}

/// Relies on `String::from_utf8`: it succeeds exactly on the byte sequences
/// that are valid UTF-8 as `vstd::utf8::valid_utf8` defines them, and then
/// returns the string whose characters are the bytes' UTF-8 decoding.
#[verifier::external_body]
fn string_from_utf8(b: Vec<u8>) -> (r: Option<String>)
    ensures
        r is Some <==> valid_utf8(b@),
        r is Some ==> r->Some_0@ == decode_utf8(b@),
{
    String::from_utf8(b).ok()
}

impl Encode for String {
    open spec fn wf(m: Seq<char>) -> bool {
        str_wf(m)
    }

    open spec fn enc(m: Seq<char>) -> Seq<u8> {
        str_enc(m)
    }

    fn encode(&self, out: &mut Vec<u8>) -> (r: Result<(), Error>) {
        let ghost out0 = out@;
        let mut bytes = self.as_str().as_bytes_vec();
        if bytes.len() > 0x7fff {
            return Err(Error::Encoding);
        }
        let n = bytes.len() as i16;
        let _ = n.encode(out);
        out.append(&mut bytes);
        proof {
            assert(out@ =~= out0 + str_enc(self@));
        }
        Ok(())
    }
}

impl Decode for String {
    open spec fn dec(b: Seq<u8>) -> Result<(Seq<char>, int), Error> {
        str_dec(b)
    }

    fn decode(data: &Vec<u8>, pos: usize) -> (r: Result<(Self, usize), Error>) {
        let (n, q) = match <i16 as Decode>::decode(data, pos) {
            Ok(v) => v,
            Err(e) => {
                return Err(e);
            },
        };
        if n < 0 {
            return Err(Error::Framing);
        }
        let len = n as usize;
        if data.len() - q < len {
            return Err(Error::Framing);
        }
        let sl = slice_subrange(data.as_slice(), q, q + len);
        let bytes = slice_to_vec(sl);
        proof {
            let b = data@.skip(pos as int);
            assert(bytes@ =~= b.subrange(2, 2 + n as int));
        }
        match string_from_utf8(bytes) {
            Some(s) => Ok((s, q + len)),
            None => Err(Error::Encoding),
        }
    }

    proof fn lemma_dec_bounds(b: Seq<u8>) {
    }
}

impl Codec for String {
    proof fn lemma_round_trip(m: Seq<char>, rest: Seq<u8>) {
        let bytes = encode_utf8(m);
        let n = bytes.len() as i16;
        let b = str_enc(m) + rest;
        lemma_be16_round_trip(n);
        assert(b =~= be16_enc(n) + (bytes + rest));
        assert(b[0] == be16_enc(n)[0]);
        assert(b[1] == be16_enc(n)[1]);
        assert(b.subrange(2, 2 + n as int) =~= bytes);
        encode_utf8_valid_utf8(m);
        encode_utf8_decode_utf8(m);
    }

    proof fn lemma_enc_len(m: Seq<char>) {
    }

    proof fn lemma_truncated(m: Seq<char>, k: int) {
        let bytes = encode_utf8(m);
        let n = bytes.len() as i16;
        let b = str_enc(m).take(k);
        if k < 2 {
        } else {
            lemma_be16_round_trip(n);
            lemma_concat_take_high(be16_enc(n), bytes, k);
            assert(b[0] == be16_enc(n)[0]);
            assert(b[1] == be16_enc(n)[1]);
        }
    }
}

/// Whether an optional string can be represented on the wire: an absent one
/// always can.
pub open spec fn opt_str_wf(m: Option<Seq<char>>) -> bool {
    match m {
        None => true,
        Some(s) => str_wf(s),
    }
}

/// The wire bytes of an optional string: a bare length of `-1` when absent,
/// the string's own encoding otherwise.
pub open spec fn opt_str_enc(m: Option<Seq<char>>) -> Seq<u8> {
    match m {
        None => be16_enc(-1i16),
        Some(s) => str_enc(s),
    }
}

/// What bytes decode to as an optional string: a length of exactly `-1`
/// yields the absent value; anything else decodes as a string does.
pub open spec fn opt_str_dec(b: Seq<u8>) -> Result<(Option<Seq<char>>, int), Error> {
    if b.len() < 2 {
        Err(Error::Framing)
    } else {
        let n = be16_val(b[0], b[1]);
        if n == -1 {
            Ok((None, 2))
        } else if n < 0 {
            Err(Error::Framing)
        } else if b.len() - 2 < n {
            Err(Error::Framing)
        } else if valid_utf8(b.subrange(2, 2 + n)) {
            Ok((Some(decode_utf8(b.subrange(2, 2 + n))), 2 + n))
        } else {
            Err(Error::Encoding)
        }
    }
}

impl Encode for Option<String> {
    open spec fn wf(m: Option<Seq<char>>) -> bool {
        opt_str_wf(m)
    }

    open spec fn enc(m: Option<Seq<char>>) -> Seq<u8> {
        opt_str_enc(m)
    }

    fn encode(&self, out: &mut Vec<u8>) -> (r: Result<(), Error>) {
        match self {
            None => {
                let n: i16 = -1;
                let _ = n.encode(out);
                Ok(())
            },
            Some(s) => s.encode(out),
        }
    }
}

impl Decode for Option<String> {
    open spec fn dec(b: Seq<u8>) -> Result<(Option<Seq<char>>, int), Error> {
        opt_str_dec(b)
    }

    fn decode(data: &Vec<u8>, pos: usize) -> (r: Result<(Self, usize), Error>) {
        let (n, q) = match <i16 as Decode>::decode(data, pos) {
            Ok(v) => v,
            Err(e) => {
                return Err(e);
            },
        };
        if n == -1 {
            return Ok((None, q));
        }
        if n < 0 {
            return Err(Error::Framing);
        }
        let len = n as usize;
        if data.len() - q < len {
            return Err(Error::Framing);
        }
        let sl = slice_subrange(data.as_slice(), q, q + len);
        let bytes = slice_to_vec(sl);
        proof {
            let b = data@.skip(pos as int);
            assert(bytes@ =~= b.subrange(2, 2 + n as int));
        }
        match string_from_utf8(bytes) {
            Some(s) => Ok((Some(s), q + len)),
            None => Err(Error::Encoding),
        }
    }

    proof fn lemma_dec_bounds(b: Seq<u8>) {
    }
}

impl Codec for Option<String> {
    proof fn lemma_round_trip(m: Option<Seq<char>>, rest: Seq<u8>) {
        match m {
            None => {
                let b = opt_str_enc(m) + rest;
                lemma_be16_round_trip(-1i16);
                assert(b[0] == be16_enc(-1i16)[0]);
                assert(b[1] == be16_enc(-1i16)[1]);
            },
            Some(s) => {
                let bytes = encode_utf8(s);
                let n = bytes.len() as i16;
                let b = opt_str_enc(m) + rest;
                lemma_be16_round_trip(n);
                assert(b =~= be16_enc(n) + (bytes + rest));
                assert(b[0] == be16_enc(n)[0]);
                assert(b[1] == be16_enc(n)[1]);
                assert(b.subrange(2, 2 + n as int) =~= bytes);
                encode_utf8_valid_utf8(s);
                encode_utf8_decode_utf8(s);
            },
        }
    }

    proof fn lemma_enc_len(m: Option<Seq<char>>) {
    }

    proof fn lemma_truncated(m: Option<Seq<char>>, k: int) {
        match m {
            None => {
            },
            Some(s) => {
                let bytes = encode_utf8(s);
                let n = bytes.len() as i16;
                let b = opt_str_enc(m).take(k);
                if k < 2 {
                } else {
                    lemma_be16_round_trip(n);
                    lemma_concat_take_high(be16_enc(n), bytes, k);
                    assert(b[0] == be16_enc(n)[0]);
                    assert(b[1] == be16_enc(n)[1]);
                }
            },
        }
    }
}

/// Absent-string sentinel: an absent optional string encodes to exactly the
/// two bytes `0xff 0xff` (a length of `-1`) with no payload, and those two
/// bytes, whatever follows them, decode to the absent value.
pub proof fn lemma_absent_string(rest: Seq<u8>)
    ensures
        opt_str_enc(None) == seq![0xffu8, 0xffu8],
        opt_str_dec(seq![0xffu8, 0xffu8] + rest) == Ok::<(Option<Seq<char>>, int), Error>(
            (None, 2),
        ),
{
    assert((((-1 as i16) as u16) >> 8) as u8 == 0xffu8) by (bit_vector);
    assert(((-1 as i16) as u16) as u8 == 0xffu8) by (bit_vector);
    assert(opt_str_enc(None) =~= seq![0xffu8, 0xffu8]);
    let b = seq![0xffu8, 0xffu8] + rest;
    assert(b[0] == 0xffu8 && b[1] == 0xffu8);
    assert(be16_val(0xffu8, 0xffu8) == -1) by (bit_vector);
}

} // verus!
