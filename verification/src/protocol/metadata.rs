//! The cluster-metadata query: a request naming the topics to describe, and
//! a response enumerating brokers and, per topic, partitions with leader,
//! replica and in-sync-replica sets and per-item error codes.

use vstd::prelude::*;

use crate::codecs::containers::{seq_enc, seq_wf};
use crate::codecs::text::{str_enc, str_wf};
use crate::codecs::{lemma_concat_assoc, lemma_skip_skip, lemma_step_ok, lemma_step_take, Codec,
    Decode, Encode};
use crate::error::Error;
use crate::protocol::{HeaderRequest, HeaderRequestView, HeaderResponse, HeaderResponseView,
    API_KEY_METADATA, API_VERSION};

verus! {

/// A request to describe the named topics; an empty list asks the broker to
/// describe all topics it knows.
#[derive(Clone, Debug, PartialEq, Eq)]
pub struct MetadataRequest {
    pub header: HeaderRequest,
    pub topics: Vec<String>,
}

/// The abstract value of a metadata request.
pub struct MetadataRequestView {
    pub header: HeaderRequestView,
    pub topics: Seq<Seq<char>>,
}

impl DeepView for MetadataRequest {
    type V = MetadataRequestView;

    open spec fn deep_view(&self) -> MetadataRequestView {
        MetadataRequestView { header: self.header.deep_view(), topics: self.topics.deep_view() }
    }
}

impl MetadataRequest {
    /// Builds a metadata request for the given topics, under a header fixed
    /// to the metadata API key and the protocol version.
    pub fn new(correlation_id: i32, client_id: String, topics: Vec<String>) -> (r: MetadataRequest)
        ensures
            r.header.api_key == API_KEY_METADATA,
            r.header.api_version == API_VERSION,
            r.header.correlation_id == correlation_id,
            r.header.client_id@ == client_id@,
            r.topics == topics,
    {
        MetadataRequest {
            header: HeaderRequest::new(API_KEY_METADATA, API_VERSION, correlation_id, client_id),
            topics,
        }
    }
}

impl Encode for MetadataRequest {
    open spec fn wf(m: MetadataRequestView) -> bool {
        &&& <HeaderRequest as Encode>::wf(m.header)
        &&& seq_wf::<String>(m.topics)
    }

    open spec fn enc(m: MetadataRequestView) -> Seq<u8> {
        <HeaderRequest as Encode>::enc(m.header) + seq_enc::<String>(m.topics)
    }

    fn encode(&self, out: &mut Vec<u8>) -> (r: Result<(), Error>) {
        let ghost out0 = out@;
        self.header.encode(out)?;
        self.topics.encode(out)?;
        proof {
            assert(out@ =~= out0 + Self::enc(self.deep_view()));
        }
        Ok(())
    }
}

/// One broker of the cluster: its node id, host name and port.
#[derive(Clone, Debug, Default, PartialEq, Eq)]
pub struct BrokerMetadata {
    pub node_id: i32,
    pub host: String,
    pub port: i32,
}

/// The abstract value of one broker's metadata.
pub struct BrokerMetadataView {
    pub node_id: i32,
    pub host: Seq<char>,
    pub port: i32,
}

impl DeepView for BrokerMetadata {
    type V = BrokerMetadataView;

    open spec fn deep_view(&self) -> BrokerMetadataView {
        BrokerMetadataView { node_id: self.node_id, host: self.host@, port: self.port }
    }
}

impl Encode for BrokerMetadata {
    open spec fn wf(m: BrokerMetadataView) -> bool {
        str_wf(m.host)
    }

    open spec fn enc(m: BrokerMetadataView) -> Seq<u8> {
        <i32 as Encode>::enc(m.node_id) + str_enc(m.host) + <i32 as Encode>::enc(m.port)
    }

    fn encode(&self, out: &mut Vec<u8>) -> (r: Result<(), Error>) {
        let ghost out0 = out@;
        self.node_id.encode(out)?;
        self.host.encode(out)?;
        self.port.encode(out)?;
        proof {
            assert(out@ =~= out0 + Self::enc(self.deep_view()));
        }
        Ok(())
    }
}

impl Decode for BrokerMetadata {
    open spec fn dec(b: Seq<u8>) -> Result<(BrokerMetadataView, int), Error> {
        match <i32 as Decode>::dec(b) {
            Err(e) => Err(e),
            Ok((node_id, k1)) => match <String as Decode>::dec(b.skip(k1)) {
                Err(e) => Err(e),
                Ok((host, k2)) => match <i32 as Decode>::dec(b.skip(k1).skip(k2)) {
                    Err(e) => Err(e),
                    Ok((port, k3)) => Ok((BrokerMetadataView { node_id, host, port }, k1 + k2 + k3)),
                },
            },
        }
    }

    fn decode(data: &Vec<u8>, pos: usize) -> (r: Result<(Self, usize), Error>) {
        let ghost b = data@.skip(pos as int);
        let (node_id, q1) = match <i32 as Decode>::decode(data, pos) {
            Ok(v) => v,
            Err(e) => {
                return Err(e);
            },
        };
        proof {
            <i32 as Decode>::lemma_dec_bounds(b);
            lemma_skip_skip(data@, pos as int, q1 as int - pos as int);
        }
        let (host, q2) = match <String as Decode>::decode(data, q1) {
            Ok(v) => v,
            Err(e) => {
                return Err(e);
            },
        };
        proof {
            <String as Decode>::lemma_dec_bounds(data@.skip(q1 as int));
            lemma_skip_skip(data@, q1 as int, q2 as int - q1 as int);
        }
        let (port, q3) = match <i32 as Decode>::decode(data, q2) {
            Ok(v) => v,
            Err(e) => {
                return Err(e);
            },
        };
        Ok((BrokerMetadata { node_id, host, port }, q3))
    }

    proof fn lemma_dec_bounds(b: Seq<u8>) {
        match <i32 as Decode>::dec(b) {
            Err(_) => {},
            Ok((node_id, k1)) => {
                <String as Decode>::lemma_dec_bounds(b.skip(k1));
            },
        }
    }
}

impl Codec for BrokerMetadata {
    #[verifier::rlimit(100)]
    proof fn lemma_round_trip(m: BrokerMetadataView, rest: Seq<u8>) {
        let e1 = <i32 as Encode>::enc(m.node_id);
        let e2 = str_enc(m.host);
        let e3 = <i32 as Encode>::enc(m.port);
        let s2 = e3 + rest;
        let s1 = e2 + s2;
        assert(Self::enc(m) + rest =~= e1 + s1);
        lemma_step_ok::<i32>(m.node_id, s1);
        lemma_step_ok::<String>(m.host, s2);
        lemma_step_ok::<i32>(m.port, rest);
    }

    proof fn lemma_enc_len(m: BrokerMetadataView) {
    }

    #[verifier::rlimit(100)]
    proof fn lemma_truncated(m: BrokerMetadataView, k: int) {
        let e1 = <i32 as Encode>::enc(m.node_id);
        let e2 = str_enc(m.host);
        let e3 = <i32 as Encode>::enc(m.port);
        let s2 = e3;
        let s1 = e2 + s2;
        assert(Self::enc(m) =~= e1 + s1);
        lemma_step_take::<i32>(m.node_id, s1, k);
        if k >= e1.len() {
            lemma_step_take::<String>(m.host, s2, k - e1.len());
            if k - e1.len() >= e2.len() {
                assert(e3 + Seq::<u8>::empty() =~= e3);
                lemma_step_take::<i32>(m.port, Seq::<u8>::empty(), k - e1.len() - e2.len());
            }
        }
    }
}

/// One partition of a topic: its error code, id, leader and the replica and
/// in-sync-replica broker sets.
#[derive(Clone, Debug, Default, PartialEq, Eq)]
pub struct PartitionMetadata {
    pub error: i16,
    pub id: i32,
    pub leader: i32,
    pub replicas: Vec<i32>,
    pub isr: Vec<i32>,
}

/// The abstract value of one partition's metadata.
pub struct PartitionMetadataView {
    pub error: i16,
    pub id: i32,
    pub leader: i32,
    pub replicas: Seq<i32>,
    pub isr: Seq<i32>,
}

impl DeepView for PartitionMetadata {
    type V = PartitionMetadataView;

    open spec fn deep_view(&self) -> PartitionMetadataView {
        PartitionMetadataView {
            error: self.error,
            id: self.id,
            leader: self.leader,
            replicas: self.replicas.deep_view(),
            isr: self.isr.deep_view(),
        }
    }
}

impl Encode for PartitionMetadata {
    open spec fn wf(m: PartitionMetadataView) -> bool {
        &&& seq_wf::<i32>(m.replicas)
        &&& seq_wf::<i32>(m.isr)
    }

    open spec fn enc(m: PartitionMetadataView) -> Seq<u8> {
        <i16 as Encode>::enc(m.error) + <i32 as Encode>::enc(m.id) + <i32 as Encode>::enc(m.leader)
            + seq_enc::<i32>(m.replicas) + seq_enc::<i32>(m.isr)
    }

    fn encode(&self, out: &mut Vec<u8>) -> (r: Result<(), Error>) {
        let ghost out0 = out@;
        self.error.encode(out)?;
        self.id.encode(out)?;
        self.leader.encode(out)?;
        self.replicas.encode(out)?;
        self.isr.encode(out)?;
        proof {
            assert(out@ =~= out0 + Self::enc(self.deep_view()));
        }
        Ok(())
    }
}

impl Decode for PartitionMetadata {
    open spec fn dec(b: Seq<u8>) -> Result<(PartitionMetadataView, int), Error> {
        match <i16 as Decode>::dec(b) {
            Err(e) => Err(e),
            Ok((error, k1)) => match <i32 as Decode>::dec(b.skip(k1)) {
                Err(e) => Err(e),
                Ok((id, k2)) => match <i32 as Decode>::dec(b.skip(k1).skip(k2)) {
                    Err(e) => Err(e),
                    Ok((leader, k3)) => match <Vec<i32> as Decode>::dec(b.skip(k1).skip(k2).skip(k3)) {
                        Err(e) => Err(e),
                        Ok((replicas, k4)) => match <Vec<i32> as Decode>::dec(
                            b.skip(k1).skip(k2).skip(k3).skip(k4),
                        ) {
                            Err(e) => Err(e),
                            Ok((isr, k5)) => Ok(
                                (
                                    PartitionMetadataView { error, id, leader, replicas, isr },
                                    k1 + k2 + k3 + k4 + k5,
                                ),
                            ),
                        },
                    },
                },
            },
        }
    }

    fn decode(data: &Vec<u8>, pos: usize) -> (r: Result<(Self, usize), Error>) {
        let ghost b = data@.skip(pos as int);
        let (error, q1) = match <i16 as Decode>::decode(data, pos) {
            Ok(v) => v,
            Err(e) => {
                return Err(e);
            },
        };
        proof {
            <i16 as Decode>::lemma_dec_bounds(b);
            lemma_skip_skip(data@, pos as int, q1 as int - pos as int);
        }
        let (id, q2) = match <i32 as Decode>::decode(data, q1) {
            Ok(v) => v,
            Err(e) => {
                return Err(e);
            },
        };
        proof {
            <i32 as Decode>::lemma_dec_bounds(data@.skip(q1 as int));
            lemma_skip_skip(data@, q1 as int, q2 as int - q1 as int);
        }
        let (leader, q3) = match <i32 as Decode>::decode(data, q2) {
            Ok(v) => v,
            Err(e) => {
                return Err(e);
            },
        };
        proof {
            <i32 as Decode>::lemma_dec_bounds(data@.skip(q2 as int));
            lemma_skip_skip(data@, q2 as int, q3 as int - q2 as int);
        }
        let (replicas, q4) = match <Vec<i32> as Decode>::decode(data, q3) {
            Ok(v) => v,
            Err(e) => {
                return Err(e);
            },
        };
        proof {
            <Vec<i32> as Decode>::lemma_dec_bounds(data@.skip(q3 as int));
            lemma_skip_skip(data@, q3 as int, q4 as int - q3 as int);
        }
        let (isr, q5) = match <Vec<i32> as Decode>::decode(data, q4) {
            Ok(v) => v,
            Err(e) => {
                return Err(e);
            },
        };
        Ok((PartitionMetadata { error, id, leader, replicas, isr }, q5))
    }

    proof fn lemma_dec_bounds(b: Seq<u8>) {
        match <i16 as Decode>::dec(b) {
            Err(_) => {},
            Ok((error, k1)) => match <i32 as Decode>::dec(b.skip(k1)) {
                Err(_) => {},
                Ok((id, k2)) => match <i32 as Decode>::dec(b.skip(k1).skip(k2)) {
                    Err(_) => {},
                    Ok((leader, k3)) => {
                        <Vec<i32> as Decode>::lemma_dec_bounds(b.skip(k1).skip(k2).skip(k3));
                        match <Vec<i32> as Decode>::dec(b.skip(k1).skip(k2).skip(k3)) {
                            Err(_) => {},
                            Ok((replicas, k4)) => {
                                <Vec<i32> as Decode>::lemma_dec_bounds(
                                    b.skip(k1).skip(k2).skip(k3).skip(k4),
                                );
                            },
                        }
                    },
                },
            },
        }
    }
}

impl Codec for PartitionMetadata {
    #[verifier::rlimit(100)]
    proof fn lemma_round_trip(m: PartitionMetadataView, rest: Seq<u8>) {
        let e1 = <i16 as Encode>::enc(m.error);
        let e2 = <i32 as Encode>::enc(m.id);
        let e3 = <i32 as Encode>::enc(m.leader);
        let e4 = seq_enc::<i32>(m.replicas);
        let e5 = seq_enc::<i32>(m.isr);
        let s4 = e5 + rest;
        let s3 = e4 + s4;
        let s2 = e3 + s3;
        let s1 = e2 + s2;
        assert(Self::enc(m) + rest =~= e1 + s1);
        lemma_step_ok::<i16>(m.error, s1);
        lemma_step_ok::<i32>(m.id, s2);
        lemma_step_ok::<i32>(m.leader, s3);
        lemma_step_ok::<Vec<i32>>(m.replicas, s4);
        lemma_step_ok::<Vec<i32>>(m.isr, rest);
    }

    proof fn lemma_enc_len(m: PartitionMetadataView) {
    }

    #[verifier::rlimit(100)]
    proof fn lemma_truncated(m: PartitionMetadataView, k: int) {
        let e1 = <i16 as Encode>::enc(m.error);
        let e2 = <i32 as Encode>::enc(m.id);
        let e3 = <i32 as Encode>::enc(m.leader);
        let e4 = seq_enc::<i32>(m.replicas);
        let e5 = seq_enc::<i32>(m.isr);
        let s4 = e5;
        let s3 = e4 + s4;
        let s2 = e3 + s3;
        let s1 = e2 + s2;
        assert(Self::enc(m) =~= e1 + s1);
        lemma_step_take::<i16>(m.error, s1, k);
        if k >= e1.len() {
            let k2 = k - e1.len();
            lemma_step_take::<i32>(m.id, s2, k2);
            if k2 >= e2.len() {
                let k3 = k2 - e2.len();
                lemma_step_take::<i32>(m.leader, s3, k3);
                if k3 >= e3.len() {
                    let k4 = k3 - e3.len();
                    lemma_step_take::<Vec<i32>>(m.replicas, s4, k4);
                    if k4 >= e4.len() {
                        assert(e5 + Seq::<u8>::empty() =~= e5);
                        lemma_step_take::<Vec<i32>>(m.isr, Seq::<u8>::empty(), k4 - e4.len());
                    }
                }
            }
        }
    }
}

/// One topic of the cluster: its error code, name and partitions.
#[derive(Clone, Debug, Default, PartialEq, Eq)]
pub struct TopicMetadata {
    pub error: i16,
    pub topic: String,
    pub partitions: Vec<PartitionMetadata>,
}

/// The abstract value of one topic's metadata.
pub struct TopicMetadataView {
    pub error: i16,
    pub topic: Seq<char>,
    pub partitions: Seq<PartitionMetadataView>,
}

impl DeepView for TopicMetadata {
    type V = TopicMetadataView;

    open spec fn deep_view(&self) -> TopicMetadataView {
        TopicMetadataView {
            error: self.error,
            topic: self.topic@,
            partitions: self.partitions.deep_view(),
        }
    }
}

impl Encode for TopicMetadata {
    open spec fn wf(m: TopicMetadataView) -> bool {
        &&& str_wf(m.topic)
        &&& seq_wf::<PartitionMetadata>(m.partitions)
    }

    open spec fn enc(m: TopicMetadataView) -> Seq<u8> {
        <i16 as Encode>::enc(m.error) + str_enc(m.topic) + seq_enc::<PartitionMetadata>(
            m.partitions,
        )
    }

    fn encode(&self, out: &mut Vec<u8>) -> (r: Result<(), Error>) {
        let ghost out0 = out@;
        self.error.encode(out)?;
        self.topic.encode(out)?;
        self.partitions.encode(out)?;
        proof {
            assert(out@ =~= out0 + Self::enc(self.deep_view()));
        }
        Ok(())
    }
}

impl Decode for TopicMetadata {
    open spec fn dec(b: Seq<u8>) -> Result<(TopicMetadataView, int), Error> {
        match <i16 as Decode>::dec(b) {
            Err(e) => Err(e),
            Ok((error, k1)) => match <String as Decode>::dec(b.skip(k1)) {
                Err(e) => Err(e),
                Ok((topic, k2)) => match <Vec<PartitionMetadata> as Decode>::dec(
                    b.skip(k1).skip(k2),
                ) {
                    Err(e) => Err(e),
                    Ok((partitions, k3)) => Ok(
                        (TopicMetadataView { error, topic, partitions }, k1 + k2 + k3),
                    ),
                },
            },
        }
    }

    fn decode(data: &Vec<u8>, pos: usize) -> (r: Result<(Self, usize), Error>) {
        let ghost b = data@.skip(pos as int);
        let (error, q1) = match <i16 as Decode>::decode(data, pos) {
            Ok(v) => v,
            Err(e) => {
                return Err(e);
            },
        };
        proof {
            <i16 as Decode>::lemma_dec_bounds(b);
            lemma_skip_skip(data@, pos as int, q1 as int - pos as int);
        }
        let (topic, q2) = match <String as Decode>::decode(data, q1) {
            Ok(v) => v,
            Err(e) => {
                return Err(e);
            },
        };
        proof {
            <String as Decode>::lemma_dec_bounds(data@.skip(q1 as int));
            lemma_skip_skip(data@, q1 as int, q2 as int - q1 as int);
        }
        let (partitions, q3) = match <Vec<PartitionMetadata> as Decode>::decode(data, q2) {
            Ok(v) => v,
            Err(e) => {
                return Err(e);
            },
        };
        Ok((TopicMetadata { error, topic, partitions }, q3))
    }

    proof fn lemma_dec_bounds(b: Seq<u8>) {
        match <i16 as Decode>::dec(b) {
            Err(_) => {},
            Ok((error, k1)) => {
                <String as Decode>::lemma_dec_bounds(b.skip(k1));
                match <String as Decode>::dec(b.skip(k1)) {
                    Err(_) => {},
                    Ok((topic, k2)) => {
                        <Vec<PartitionMetadata> as Decode>::lemma_dec_bounds(b.skip(k1).skip(k2));
                    },
                }
            },
        }
    }
}

impl Codec for TopicMetadata {
    #[verifier::rlimit(100)]
    proof fn lemma_round_trip(m: TopicMetadataView, rest: Seq<u8>) {
        let e1 = <i16 as Encode>::enc(m.error);
        let e2 = str_enc(m.topic);
        let e3 = seq_enc::<PartitionMetadata>(m.partitions);
        let s2 = e3 + rest;
        let s1 = e2 + s2;
        assert(Self::enc(m) + rest =~= e1 + s1);
        lemma_step_ok::<i16>(m.error, s1);
        lemma_step_ok::<String>(m.topic, s2);
        lemma_step_ok::<Vec<PartitionMetadata>>(m.partitions, rest);
    }

    proof fn lemma_enc_len(m: TopicMetadataView) {
    }

    #[verifier::rlimit(100)]
    proof fn lemma_truncated(m: TopicMetadataView, k: int) {
        let e1 = <i16 as Encode>::enc(m.error);
        let e2 = str_enc(m.topic);
        let e3 = seq_enc::<PartitionMetadata>(m.partitions);
        let s2 = e3;
        let s1 = e2 + s2;
        assert(Self::enc(m) =~= e1 + s1);
        lemma_step_take::<i16>(m.error, s1, k);
        if k >= e1.len() {
            let k2 = k - e1.len();
            lemma_step_take::<String>(m.topic, s2, k2);
            if k2 >= e2.len() {
                assert(e3 + Seq::<u8>::empty() =~= e3);
                lemma_step_take::<Vec<PartitionMetadata>>(
                    m.partitions,
                    Seq::<u8>::empty(),
                    k2 - e2.len(),
                );
            }
        }
    }
}

/// The broker's answer to a metadata request: the response header, the
/// brokers of the cluster, and the described topics.
#[derive(Clone, Debug, Default, PartialEq, Eq)]
pub struct MetadataResponse {
    pub header: HeaderResponse,
    pub brokers: Vec<BrokerMetadata>,
    pub topics: Vec<TopicMetadata>,
}

/// The abstract value of a metadata response.
pub struct MetadataResponseView {
    pub header: HeaderResponseView,
    pub brokers: Seq<BrokerMetadataView>,
    pub topics: Seq<TopicMetadataView>,
}

impl DeepView for MetadataResponse {
    type V = MetadataResponseView;

    open spec fn deep_view(&self) -> MetadataResponseView {
        MetadataResponseView {
            header: self.header.deep_view(),
            brokers: self.brokers.deep_view(),
            topics: self.topics.deep_view(),
        }
    }
}

impl MetadataResponse {
    /// Populates `self` in place with the message decoded from `data` at
    /// `pos`, returning the position just past it. On failure the message is
    /// untouched but must be treated as unspecified and discarded.
    pub fn decode_into(&mut self, data: &Vec<u8>, pos: usize) -> (r: Result<usize, Error>)
        requires
            pos <= data.len(),
        ensures
            match <MetadataResponse as Decode>::dec(data@.skip(pos as int)) {
                Ok((m, n)) => r is Ok && final(self).deep_view() == m && r->Ok_0 == pos + n,
                Err(e) => r == Err::<usize, Error>(e),
            },
    {
        match <MetadataResponse as Decode>::decode(data, pos) {
            Ok((v, q)) => {
                *self = v;
                Ok(q)
            },
            Err(e) => Err(e),
        }
    }
}

impl Encode for MetadataResponse {
    open spec fn wf(m: MetadataResponseView) -> bool {
        &&& seq_wf::<BrokerMetadata>(m.brokers)
        &&& seq_wf::<TopicMetadata>(m.topics)
    }

    open spec fn enc(m: MetadataResponseView) -> Seq<u8> {
        <HeaderResponse as Encode>::enc(m.header) + seq_enc::<BrokerMetadata>(m.brokers)
            + seq_enc::<TopicMetadata>(m.topics)
    }

    fn encode(&self, out: &mut Vec<u8>) -> (r: Result<(), Error>) {
        let ghost out0 = out@;
        self.header.encode(out)?;
        self.brokers.encode(out)?;
        self.topics.encode(out)?;
        proof {
            assert(out@ =~= out0 + Self::enc(self.deep_view()));
        }
        Ok(())
    }
}

impl Decode for MetadataResponse {
    open spec fn dec(b: Seq<u8>) -> Result<(MetadataResponseView, int), Error> {
        match <HeaderResponse as Decode>::dec(b) {
            Err(e) => Err(e),
            Ok((header, k1)) => match <Vec<BrokerMetadata> as Decode>::dec(b.skip(k1)) {
                Err(e) => Err(e),
                Ok((brokers, k2)) => match <Vec<TopicMetadata> as Decode>::dec(
                    b.skip(k1).skip(k2),
                ) {
                    Err(e) => Err(e),
                    Ok((topics, k3)) => Ok(
                        (MetadataResponseView { header, brokers, topics }, k1 + k2 + k3),
                    ),
                },
            },
        }
    }

    fn decode(data: &Vec<u8>, pos: usize) -> (r: Result<(Self, usize), Error>) {
        let ghost b = data@.skip(pos as int);
        let (header, q1) = match <HeaderResponse as Decode>::decode(data, pos) {
            Ok(v) => v,
            Err(e) => {
                return Err(e);
            },
        };
        proof {
            <HeaderResponse as Decode>::lemma_dec_bounds(b);
            lemma_skip_skip(data@, pos as int, q1 as int - pos as int);
        }
        let (brokers, q2) = match <Vec<BrokerMetadata> as Decode>::decode(data, q1) {
            Ok(v) => v,
            Err(e) => {
                return Err(e);
            },
        };
        proof {
            <Vec<BrokerMetadata> as Decode>::lemma_dec_bounds(data@.skip(q1 as int));
            lemma_skip_skip(data@, q1 as int, q2 as int - q1 as int);
        }
        let (topics, q3) = match <Vec<TopicMetadata> as Decode>::decode(data, q2) {
            Ok(v) => v,
            Err(e) => {
                return Err(e);
            },
        };
        Ok((MetadataResponse { header, brokers, topics }, q3))
    }

    proof fn lemma_dec_bounds(b: Seq<u8>) {
        match <HeaderResponse as Decode>::dec(b) {
            Err(_) => {},
            Ok((header, k1)) => {
                <Vec<BrokerMetadata> as Decode>::lemma_dec_bounds(b.skip(k1));
                match <Vec<BrokerMetadata> as Decode>::dec(b.skip(k1)) {
                    Err(_) => {},
                    Ok((brokers, k2)) => {
                        <Vec<TopicMetadata> as Decode>::lemma_dec_bounds(b.skip(k1).skip(k2));
                    },
                }
            },
        }
    }
}

impl Codec for MetadataResponse {
    #[verifier::rlimit(100)]
    proof fn lemma_round_trip(m: MetadataResponseView, rest: Seq<u8>) {
        let e1 = <HeaderResponse as Encode>::enc(m.header);
        let e2 = seq_enc::<BrokerMetadata>(m.brokers);
        let e3 = seq_enc::<TopicMetadata>(m.topics);
        let s2 = e3 + rest;
        let s1 = e2 + s2;
        lemma_concat_assoc(e1 + e2, e3, rest);
        lemma_concat_assoc(e1, e2, e3 + rest);
        lemma_concat_assoc(e2, e3, rest);
        assert(Self::enc(m) + rest == e1 + s1);
        lemma_step_ok::<HeaderResponse>(m.header, s1);
        lemma_step_ok::<Vec<BrokerMetadata>>(m.brokers, s2);
        lemma_step_ok::<Vec<TopicMetadata>>(m.topics, rest);
    }

    proof fn lemma_enc_len(m: MetadataResponseView) {
    }

    #[verifier::rlimit(100)]
    proof fn lemma_truncated(m: MetadataResponseView, k: int) {
        let e1 = <HeaderResponse as Encode>::enc(m.header);
        let e2 = seq_enc::<BrokerMetadata>(m.brokers);
        let e3 = seq_enc::<TopicMetadata>(m.topics);
        let s2 = e3;
        let s1 = e2 + s2;
        assert(Self::enc(m) =~= e1 + s1);
        lemma_step_take::<HeaderResponse>(m.header, s1, k);
        if k >= e1.len() {
            let k2 = k - e1.len();
            lemma_step_take::<Vec<BrokerMetadata>>(m.brokers, s2, k2);
            if k2 >= e2.len() {
                assert(e3 + Seq::<u8>::empty() =~= e3);
                lemma_step_take::<Vec<TopicMetadata>>(m.topics, Seq::<u8>::empty(), k2 - e2.len());
            }
        }
    }
}

} // verus!
