//! The shared request/response header layout and the message identifiers.
//!
//! Every request starts with the request header: API key, API version,
//! correlation id and client id, in that order. Every response starts with
//! the response header, which carries the correlation id alone. The two API
//! key constants identify the cluster-metadata query and the partition-offset
//! query; each request's constructor fixes them so a payload can never be
//! sent under the wrong header.

pub mod metadata;
pub mod offset;

use vstd::prelude::*;

use crate::codecs::{be16_enc, be32_enc, Codec, Decode, Encode};
use crate::codecs::text::{str_enc, str_wf};
use crate::error::Error;

verus! {

/// API key of the cluster-metadata query.
pub const API_KEY_METADATA: i16 = 3;

/// API key of the partition-offset query.
pub const API_KEY_OFFSET: i16 = 2;

/// Protocol version spoken by this codec.
pub const API_VERSION: i16 = 0;

/// The header prepended to every outgoing request. Write-only: the broker
/// never echoes it back, so it has no decoder.
#[derive(Clone, Debug, PartialEq, Eq)]
pub struct HeaderRequest {
    pub api_key: i16,
    pub api_version: i16,
    pub correlation_id: i32,
    pub client_id: String,
}

/// The abstract value of a request header.
pub struct HeaderRequestView {
    pub api_key: i16,
    pub api_version: i16,
    pub correlation_id: i32,
    pub client_id: Seq<char>,
}

impl DeepView for HeaderRequest {
    type V = HeaderRequestView;

    open spec fn deep_view(&self) -> HeaderRequestView {
        HeaderRequestView {
            api_key: self.api_key,
            api_version: self.api_version,
            correlation_id: self.correlation_id,
            client_id: self.client_id@,
        }
    }
}

impl HeaderRequest {
    /// Builds a request header carrying the given message identifiers,
    /// correlation id and client id.
    pub fn new(api_key: i16, api_version: i16, correlation_id: i32, client_id: String) -> (r:
        HeaderRequest)
        ensures
            r.api_key == api_key,
            r.api_version == api_version,
            r.correlation_id == correlation_id,
            r.client_id@ == client_id@,
    {
        HeaderRequest { api_key, api_version, correlation_id, client_id }
    }
}

impl Encode for HeaderRequest {
    open spec fn wf(m: HeaderRequestView) -> bool {
        str_wf(m.client_id)
    }

    open spec fn enc(m: HeaderRequestView) -> Seq<u8> {
        be16_enc(m.api_key) + be16_enc(m.api_version) + be32_enc(m.correlation_id) + str_enc(
            m.client_id,
        )
    }

    fn encode(&self, out: &mut Vec<u8>) -> (r: Result<(), Error>) {
        let ghost out0 = out@;
        self.api_key.encode(out)?;
        self.api_version.encode(out)?;
        self.correlation_id.encode(out)?;
        self.client_id.encode(out)?;
        proof {
            assert(out@ =~= out0 + Self::enc(self.deep_view()));
        }
        Ok(())
    }
}

/// The header of every broker response: the correlation id of the request
/// that produced it, and nothing else.
#[derive(Clone, Copy, Debug, Default, PartialEq, Eq)]
pub struct HeaderResponse {
    pub correlation_id: i32,
}

/// The abstract value of a response header.
pub struct HeaderResponseView {
    pub correlation_id: i32,
}

impl DeepView for HeaderResponse {
    type V = HeaderResponseView;

    open spec fn deep_view(&self) -> HeaderResponseView {
        HeaderResponseView { correlation_id: self.correlation_id }
    }
}

impl Encode for HeaderResponse {
    open spec fn wf(m: HeaderResponseView) -> bool {
        true
    }

    open spec fn enc(m: HeaderResponseView) -> Seq<u8> {
        be32_enc(m.correlation_id)
    }

    fn encode(&self, out: &mut Vec<u8>) -> (r: Result<(), Error>) {
        self.correlation_id.encode(out)
    }
}

impl Decode for HeaderResponse {
    open spec fn dec(b: Seq<u8>) -> Result<(HeaderResponseView, int), Error> {
        match <i32 as Decode>::dec(b) {
            Err(e) => Err(e),
            Ok((c, k)) => Ok((HeaderResponseView { correlation_id: c }, k)),
        }
    }

    fn decode(data: &Vec<u8>, pos: usize) -> (r: Result<(Self, usize), Error>) {
        match <i32 as Decode>::decode(data, pos) {
            Err(e) => Err(e),
            Ok((c, q)) => Ok((HeaderResponse { correlation_id: c }, q)),
        }
    }

    proof fn lemma_dec_bounds(b: Seq<u8>) {
    }
}

impl Codec for HeaderResponse {
    proof fn lemma_round_trip(m: HeaderResponseView, rest: Seq<u8>) {
        <i32 as Codec>::lemma_round_trip(m.correlation_id, rest);
    }

    proof fn lemma_enc_len(m: HeaderResponseView) {
    }

    proof fn lemma_truncated(m: HeaderResponseView, k: int) {
        <i32 as Codec>::lemma_truncated(m.correlation_id, k);
    }
}

} // verus!
