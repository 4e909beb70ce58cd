//! The partition-offset query: a request listing, per topic, per-partition
//! offset queries, and a response returning, per partition, a sequence of
//! offsets or an error code, together with the projection of one partition's
//! answer to its current offset.

use vstd::prelude::*;

use crate::codecs::containers::{seq_enc, seq_wf};
use crate::codecs::text::{str_enc, str_wf};
use crate::codecs::{lemma_skip_skip, lemma_step_ok, lemma_step_take, Codec, Decode, Encode};
use crate::error::{spec_code_of, Error, KafkaCode};
use crate::protocol::{HeaderRequest, HeaderRequestView, HeaderResponse, HeaderResponseView,
    API_KEY_OFFSET, API_VERSION};
use crate::utils::PartitionOffset;

verus! {

/// One per-partition offset query: the partition, the target timestamp (or a
/// protocol sentinel for "earliest"/"latest"), and the greatest number of
/// offsets wanted back.
#[derive(Clone, Copy, Debug, PartialEq, Eq)]
pub struct PartitionOffsetRequest {
    pub partition: i32,
    pub max_offsets: i32,
    pub time: i64,
}

/// The abstract value of one per-partition offset query.
pub struct PartitionOffsetRequestView {
    pub partition: i32,
    pub max_offsets: i32,
    pub time: i64,
}

impl DeepView for PartitionOffsetRequest {
    type V = PartitionOffsetRequestView;

    open spec fn deep_view(&self) -> PartitionOffsetRequestView {
        PartitionOffsetRequestView {
            partition: self.partition,
            max_offsets: self.max_offsets,
            time: self.time,
        }
    }
}

/// The per-partition query the add operation appends: the given partition
/// and timestamp, asking for at most one offset back.
pub open spec fn partition_req(partition: i32, time: i64) -> PartitionOffsetRequestView {
    PartitionOffsetRequestView { partition, max_offsets: 1, time }
}

impl PartitionOffsetRequest {
    /// Builds a query for one partition at the given timestamp, asking for
    /// at most one offset back.
    pub fn new(partition: i32, time: i64) -> (r: PartitionOffsetRequest)
        ensures
            r.deep_view() == partition_req(partition, time),
    {
        PartitionOffsetRequest { partition, max_offsets: 1, time }
    }
}

impl Encode for PartitionOffsetRequest {
    open spec fn wf(m: PartitionOffsetRequestView) -> bool {
        true
    }

    /// The wire order is `partition, time, max_offsets`: the timestamp goes
    /// out before the count cap, unlike the declared field order.
    open spec fn enc(m: PartitionOffsetRequestView) -> Seq<u8> {
        <i32 as Encode>::enc(m.partition) + <i64 as Encode>::enc(m.time) + <i32 as Encode>::enc(
            m.max_offsets,
        )
    }

    fn encode(&self, out: &mut Vec<u8>) -> (r: Result<(), Error>) {
        let ghost out0 = out@;
        self.partition.encode(out)?;
        self.time.encode(out)?;
        self.max_offsets.encode(out)?;
        proof {
            assert(out@ =~= out0 + Self::enc(self.deep_view()));
        }
        Ok(())
    }
}

/// All per-partition queries of one topic, grouped under its name.
#[derive(Clone, Debug, PartialEq, Eq)]
pub struct TopicPartitionOffsetRequest {
    pub topic: String,
    pub partitions: Vec<PartitionOffsetRequest>,
}

/// The abstract value of one topic's group of queries.
pub struct TopicPartitionOffsetRequestView {
    pub topic: Seq<char>,
    pub partitions: Seq<PartitionOffsetRequestView>,
}

impl DeepView for TopicPartitionOffsetRequest {
    type V = TopicPartitionOffsetRequestView;

    open spec fn deep_view(&self) -> TopicPartitionOffsetRequestView {
        TopicPartitionOffsetRequestView {
            topic: self.topic@,
            partitions: self.partitions.deep_view(),
        }
    }
}

impl TopicPartitionOffsetRequest {
    /// Builds an empty group of queries for the given topic.
    pub fn new(topic: &str) -> (r: TopicPartitionOffsetRequest)
        ensures
            r.topic@ == topic@,
            r.partitions.deep_view() == Seq::<PartitionOffsetRequestView>::empty(),
    {
        let r = TopicPartitionOffsetRequest { topic: topic.to_owned(), partitions: Vec::new() };
        proof {
            assert(r.partitions.deep_view() =~= Seq::<PartitionOffsetRequestView>::empty());
        }
        r
    }

    /// Appends a query for one more partition at the given timestamp.
    pub fn add(&mut self, partition: i32, time: i64)
        ensures
            final(self).topic == old(self).topic,
            final(self).partitions.deep_view() == old(self).partitions.deep_view().push(
                partition_req(partition, time),
            ),
    {
        let ghost before = self.partitions.deep_view();
        self.partitions.push(PartitionOffsetRequest::new(partition, time));
        proof {
            assert(self.partitions.deep_view() =~= before.push(partition_req(partition, time)));
        }
    }
}

impl Encode for TopicPartitionOffsetRequest {
    open spec fn wf(m: TopicPartitionOffsetRequestView) -> bool {
        &&& str_wf(m.topic)
        &&& seq_wf::<PartitionOffsetRequest>(m.partitions)
    }

    open spec fn enc(m: TopicPartitionOffsetRequestView) -> Seq<u8> {
        str_enc(m.topic) + seq_enc::<PartitionOffsetRequest>(m.partitions)
    }

    fn encode(&self, out: &mut Vec<u8>) -> (r: Result<(), Error>) {
        let ghost out0 = out@;
        self.topic.encode(out)?;
        self.partitions.encode(out)?;
        proof {
            assert(out@ =~= out0 + Self::enc(self.deep_view()));
        }
        Ok(())
    }
}

/// Where a topic stands among the groups: the first index whose group names
/// it, or `-1` when none does.
pub open spec fn find_topic(groups: Seq<TopicPartitionOffsetRequestView>, topic: Seq<char>) -> int
    decreases groups.len(),
{
    if groups.len() == 0 {
        -1
    } else if groups[0].topic == topic {
        0
    } else {
        let r = find_topic(groups.drop_first(), topic);
        if r < 0 {
            -1
        } else {
            r + 1
        }
    }
}

/// `find_topic` names the first group of the topic, or `-1` when no group
/// names it.
pub proof fn lemma_find_topic(groups: Seq<TopicPartitionOffsetRequestView>, topic: Seq<char>)
    ensures
        ({
            let i = find_topic(groups, topic);
            &&& -1 <= i < groups.len()
            &&& i >= 0 ==> groups[i].topic == topic && (forall|j: int|
                0 <= j < i ==> groups[j].topic != topic)
            &&& i == -1 ==> (forall|j: int| 0 <= j < groups.len() ==> groups[j].topic != topic)
        }),
    decreases groups.len(),
{
    if groups.len() == 0 {
    } else {
        let rest = groups.drop_first();
        lemma_find_topic(rest, topic);
        if groups[0].topic != topic {
            let r = find_topic(rest, topic);
            if r >= 0 {
                assert forall|j: int| 0 <= j < r + 1 implies groups[j].topic != topic by {
                    if j > 0 {
                        assert(rest[j - 1].topic != topic);
                    }
                }
            } else {
                assert forall|j: int| 0 <= j < groups.len() implies groups[j].topic != topic by {
                    if j > 0 {
                        assert(rest[j - 1].topic != topic);
                    }
                }
            }
        }
    }
}

/// The first match determines `find_topic`.
pub proof fn lemma_find_topic_first(
    groups: Seq<TopicPartitionOffsetRequestView>,
    topic: Seq<char>,
    i: int,
)
    requires
        0 <= i < groups.len(),
        groups[i].topic == topic,
        forall|j: int| 0 <= j < i ==> groups[j].topic != topic,
    ensures
        find_topic(groups, topic) == i,
    decreases groups.len(),
{
    if i == 0 {
    } else {
        let rest = groups.drop_first();
        assert forall|j: int| 0 <= j < i - 1 implies rest[j].topic != topic by {
            assert(groups[j + 1].topic != topic);
        }
        lemma_find_topic_first(rest, topic, i - 1);
    }
}

/// What the add operation does to the topic groups: it appends the new
/// per-partition query to the first group of the topic, or opens a new group
/// at the end when no group names the topic.
pub open spec fn add_spec(
    groups: Seq<TopicPartitionOffsetRequestView>,
    topic: Seq<char>,
    partition: i32,
    time: i64,
) -> Seq<TopicPartitionOffsetRequestView> {
    let i = find_topic(groups, topic);
    if i >= 0 {
        groups.update(
            i,
            TopicPartitionOffsetRequestView {
                topic: groups[i].topic,
                partitions: groups[i].partitions.push(partition_req(partition, time)),
            },
        )
    } else {
        groups.push(
            TopicPartitionOffsetRequestView {
                topic,
                partitions: seq![partition_req(partition, time)],
            },
        )
    }
}

/// At most one topic group per distinct topic name.
pub open spec fn distinct_topics(groups: Seq<TopicPartitionOffsetRequestView>) -> bool {
    forall|i: int, j: int| 0 <= i < j < groups.len() ==> groups[i].topic != groups[j].topic
}

/// The add operation never creates a duplicate topic group.
pub proof fn lemma_add_distinct(
    groups: Seq<TopicPartitionOffsetRequestView>,
    topic: Seq<char>,
    partition: i32,
    time: i64,
)
    requires
        distinct_topics(groups),
    ensures
        distinct_topics(add_spec(groups, topic, partition, time)),
{
    lemma_find_topic(groups, topic);
    let g1 = add_spec(groups, topic, partition, time);
    assert forall|i: int, j: int| 0 <= i < j < g1.len() implies g1[i].topic != g1[j].topic by {
        if j < groups.len() {
        } else {
            assert(g1[j].topic == topic);
        }
    }
}

/// Topic grouping idempotence: adding two partitions under one topic leaves
/// exactly one group for that topic, holding both queries in call order, and
/// every other group untouched.
pub proof fn lemma_add_same_topic_once(
    groups: Seq<TopicPartitionOffsetRequestView>,
    topic: Seq<char>,
    p1: i32,
    t1: i64,
    p2: i32,
    t2: i64,
)
    requires
        distinct_topics(groups),
    ensures
        ({
            let g2 = add_spec(add_spec(groups, topic, p1, t1), topic, p2, t2);
            let found = find_topic(groups, topic);
            let i = if found >= 0 {
                found
            } else {
                groups.len() as int
            };
            let base = if found >= 0 {
                groups[found].partitions
            } else {
                Seq::<PartitionOffsetRequestView>::empty()
            };
            &&& distinct_topics(g2)
            &&& g2.len() == (if found >= 0 {
                groups.len() as int
            } else {
                groups.len() as int + 1
            })
            &&& 0 <= i < g2.len()
            &&& g2[i].topic == topic
            &&& g2[i].partitions == base + seq![partition_req(p1, t1), partition_req(p2, t2)]
            &&& forall|j: int| 0 <= j < g2.len() && j != i ==> #[trigger] g2[j] == groups[j]
        }),
{
    lemma_find_topic(groups, topic);
    let g1 = add_spec(groups, topic, p1, t1);
    lemma_add_distinct(groups, topic, p1, t1);
    let found = find_topic(groups, topic);
    let i = if found >= 0 {
        found
    } else {
        groups.len() as int
    };
    assert(g1[i].topic == topic);
    assert(forall|j: int| 0 <= j < i ==> g1[j].topic != topic);
    lemma_find_topic_first(g1, topic, i);
    let g2 = add_spec(g1, topic, p2, t2);
    lemma_add_distinct(g1, topic, p2, t2);
    let base = if found >= 0 {
        groups[found].partitions
    } else {
        Seq::<PartitionOffsetRequestView>::empty()
    };
    assert(g2[i].partitions =~= base + seq![partition_req(p1, t1), partition_req(p2, t2)]) by {
        assert(g1[i].partitions =~= base.push(partition_req(p1, t1)));
    }
}

/// A request for partition offsets, grouped by topic. The replica id is
/// fixed at `-1`, meaning "any replica": the public operations never change
/// it. Invariant, kept by the add operation: at most one group per distinct
/// topic name, in first-seen insertion order.
#[derive(Clone, Debug, PartialEq, Eq)]
pub struct OffsetRequest {
    pub header: HeaderRequest,
    pub replica: i32,
    pub topic_partitions: Vec<TopicPartitionOffsetRequest>,
}

/// The abstract value of an offset request.
pub struct OffsetRequestView {
    pub header: HeaderRequestView,
    pub replica: i32,
    pub topic_partitions: Seq<TopicPartitionOffsetRequestView>,
}

impl DeepView for OffsetRequest {
    type V = OffsetRequestView;

    open spec fn deep_view(&self) -> OffsetRequestView {
        OffsetRequestView {
            header: self.header.deep_view(),
            replica: self.replica,
            topic_partitions: self.topic_partitions.deep_view(),
        }
    }
}

impl OffsetRequest {
    /// Builds an empty offset request under a header fixed to the offset API
    /// key and the protocol version, reading from any replica.
    pub fn new(correlation_id: i32, client_id: String) -> (r: OffsetRequest)
        ensures
            r.header.api_key == API_KEY_OFFSET,
            r.header.api_version == API_VERSION,
            r.header.correlation_id == correlation_id,
            r.header.client_id@ == client_id@,
            r.replica == -1,
            r.topic_partitions.deep_view() == Seq::<TopicPartitionOffsetRequestView>::empty(),
            distinct_topics(r.topic_partitions.deep_view()),
    {
        let r = OffsetRequest {
            header: HeaderRequest::new(API_KEY_OFFSET, API_VERSION, correlation_id, client_id),
            replica: -1,
            topic_partitions: Vec::new(),
        };
        proof {
            assert(r.topic_partitions.deep_view() =~= Seq::<
                TopicPartitionOffsetRequestView,
            >::empty());
        }
        r
    }

    /// Adds one per-partition query: it is appended to the first group that
    /// names the topic, and a new group is opened at the end only when none
    /// does, so no duplicate topic group ever arises.
    pub fn add(&mut self, topic: &str, partition: i32, time: i64)
        ensures
            final(self).header == old(self).header,
            final(self).replica == old(self).replica,
            final(self).topic_partitions.deep_view() == add_spec(
                old(self).topic_partitions.deep_view(),
                topic@,
                partition,
                time,
            ),
    {
        let ghost groups0 = self.topic_partitions.deep_view();
        proof {
            lemma_find_topic(groups0, topic@);
        }
        let t = topic.to_owned();
        let n = self.topic_partitions.len();
        let mut i: usize = 0;
        while i < n
            invariant
                n == self.topic_partitions.len(),
                0 <= i <= n,
                t@ == topic@,
                *self == *old(self),
                groups0 == self.topic_partitions.deep_view(),
                forall|j: int| 0 <= j < i ==> groups0[j].topic != topic@,
            decreases n - i,
        {
            if self.topic_partitions[i].topic.eq(&t) {
                proof {
                    assert(groups0[i as int].topic == topic@);
                    lemma_find_topic_first(groups0, topic@, i as int);
                }
                let mut tp = self.topic_partitions.remove(i);
                tp.add(partition, time);
                self.topic_partitions.insert(i, tp);
                proof {
                    assert(self.topic_partitions.deep_view() =~= add_spec(
                        groups0,
                        topic@,
                        partition,
                        time,
                    ));
                }
                return ;
            }
            i += 1;
        }
        let mut tp = TopicPartitionOffsetRequest::new(t.as_str());
        tp.add(partition, time);
        self.topic_partitions.push(tp);
        proof {
            assert(find_topic(groups0, topic@) == -1);
            assert(tp.deep_view().partitions =~= seq![partition_req(partition, time)]);
            assert(self.topic_partitions.deep_view() =~= add_spec(
                groups0,
                topic@,
                partition,
                time,
            ));
        }
    }
}

impl Encode for OffsetRequest {
    open spec fn wf(m: OffsetRequestView) -> bool {
        &&& <HeaderRequest as Encode>::wf(m.header)
        &&& seq_wf::<TopicPartitionOffsetRequest>(m.topic_partitions)
    }

    open spec fn enc(m: OffsetRequestView) -> Seq<u8> {
        <HeaderRequest as Encode>::enc(m.header) + <i32 as Encode>::enc(m.replica) + seq_enc::<
            TopicPartitionOffsetRequest,
        >(m.topic_partitions)
    }

    fn encode(&self, out: &mut Vec<u8>) -> (r: Result<(), Error>) {
        let ghost out0 = out@;
        self.header.encode(out)?;
        self.replica.encode(out)?;
        self.topic_partitions.encode(out)?;
        proof {
            assert(out@ =~= out0 + Self::enc(self.deep_view()));
        }
        Ok(())
    }
}

/// One partition's answer: the partition, an error code, and the offsets the
/// broker returned, possibly none at all.
#[derive(Clone, Debug, Default, PartialEq, Eq)]
pub struct PartitionOffsetResponse {
    pub partition: i32,
    pub error: i16,
    pub offset: Vec<i64>,
}

/// The abstract value of one partition's answer.
pub struct PartitionOffsetResponseView {
    pub partition: i32,
    pub error: i16,
    pub offset: Seq<i64>,
}

impl DeepView for PartitionOffsetResponse {
    type V = PartitionOffsetResponseView;

    open spec fn deep_view(&self) -> PartitionOffsetResponseView {
        PartitionOffsetResponseView {
            partition: self.partition,
            error: self.error,
            offset: self.offset.deep_view(),
        }
    }
}

impl PartitionOffsetResponse {
    /// Projects this partition's answer to its current offset. A broker
    /// error takes precedence: any non-zero error code becomes that failure
    /// and the offsets are discarded. On success the first offset is the
    /// answer, with `-1` standing in when the broker returned none.
    pub fn into_offset(&self) -> (r: Result<PartitionOffset, KafkaCode>)
        ensures
            r == (match spec_code_of(self.error) {
                Some(code) => Err::<PartitionOffset, KafkaCode>(code),
                None => Ok::<PartitionOffset, KafkaCode>(
                    PartitionOffset {
                        partition: self.partition,
                        offset: if self.offset@.len() > 0 {
                            self.offset@[0]
                        } else {
                            -1i64
                        },
                    },
                ),
            }),
    {
        match KafkaCode::from_protocol(self.error) {
            Some(code) => Err(code),
            None => {
                let offset: i64 = if self.offset.len() > 0 {
                    self.offset[0]
                } else {
                    -1
                };
                Ok(PartitionOffset { partition: self.partition, offset })
            },
        }
    }
}

impl Encode for PartitionOffsetResponse {
    open spec fn wf(m: PartitionOffsetResponseView) -> bool {
        seq_wf::<i64>(m.offset)
    }

    open spec fn enc(m: PartitionOffsetResponseView) -> Seq<u8> {
        <i32 as Encode>::enc(m.partition) + <i16 as Encode>::enc(m.error) + seq_enc::<i64>(m.offset)
    }

    fn encode(&self, out: &mut Vec<u8>) -> (r: Result<(), Error>) {
        let ghost out0 = out@;
        self.partition.encode(out)?;
        self.error.encode(out)?;
        self.offset.encode(out)?;
        proof {
            assert(out@ =~= out0 + Self::enc(self.deep_view()));
        }
        Ok(())
    }
}

impl Decode for PartitionOffsetResponse {
    open spec fn dec(b: Seq<u8>) -> Result<(PartitionOffsetResponseView, int), Error> {
        match <i32 as Decode>::dec(b) {
            Err(e) => Err(e),
            Ok((partition, k1)) => match <i16 as Decode>::dec(b.skip(k1)) {
                Err(e) => Err(e),
                Ok((error, k2)) => match <Vec<i64> as Decode>::dec(b.skip(k1).skip(k2)) {
                    Err(e) => Err(e),
                    Ok((offset, k3)) => Ok(
                        (PartitionOffsetResponseView { partition, error, offset }, k1 + k2 + k3),
                    ),
                },
            },
        }
    }

    fn decode(data: &Vec<u8>, pos: usize) -> (r: Result<(Self, usize), Error>) {
        let ghost b = data@.skip(pos as int);
        let (partition, q1) = match <i32 as Decode>::decode(data, pos) {
            Ok(v) => v,
            Err(e) => {
                return Err(e);
            },
        };
        proof {
            <i32 as Decode>::lemma_dec_bounds(b);
            lemma_skip_skip(data@, pos as int, q1 as int - pos as int);
        }
        let (error, q2) = match <i16 as Decode>::decode(data, q1) {
            Ok(v) => v,
            Err(e) => {
                return Err(e);
            },
        };
        proof {
            <i16 as Decode>::lemma_dec_bounds(data@.skip(q1 as int));
            lemma_skip_skip(data@, q1 as int, q2 as int - q1 as int);
        }
        let (offset, q3) = match <Vec<i64> as Decode>::decode(data, q2) {
            Ok(v) => v,
            Err(e) => {
                return Err(e);
            },
        };
        Ok((PartitionOffsetResponse { partition, error, offset }, q3))
    }

    proof fn lemma_dec_bounds(b: Seq<u8>) {
        match <i32 as Decode>::dec(b) {
            Err(_) => {},
            Ok((partition, k1)) => match <i16 as Decode>::dec(b.skip(k1)) {
                Err(_) => {},
                Ok((error, k2)) => {
                    <Vec<i64> as Decode>::lemma_dec_bounds(b.skip(k1).skip(k2));
                },
            },
        }
    }
}

impl Codec for PartitionOffsetResponse {
    #[verifier::rlimit(100)]
    proof fn lemma_round_trip(m: PartitionOffsetResponseView, rest: Seq<u8>) {
        let e1 = <i32 as Encode>::enc(m.partition);
        let e2 = <i16 as Encode>::enc(m.error);
        let e3 = seq_enc::<i64>(m.offset);
        let s2 = e3 + rest;
        let s1 = e2 + s2;
        assert(Self::enc(m) + rest =~= e1 + s1);
        lemma_step_ok::<i32>(m.partition, s1);
        lemma_step_ok::<i16>(m.error, s2);
        lemma_step_ok::<Vec<i64>>(m.offset, rest);
    }

    proof fn lemma_enc_len(m: PartitionOffsetResponseView) {
    }

    #[verifier::rlimit(100)]
    proof fn lemma_truncated(m: PartitionOffsetResponseView, k: int) {
        let e1 = <i32 as Encode>::enc(m.partition);
        let e2 = <i16 as Encode>::enc(m.error);
        let e3 = seq_enc::<i64>(m.offset);
        let s2 = e3;
        let s1 = e2 + s2;
        assert(Self::enc(m) =~= e1 + s1);
        lemma_step_take::<i32>(m.partition, s1, k);
        if k >= e1.len() {
            let k2 = k - e1.len();
            lemma_step_take::<i16>(m.error, s2, k2);
            if k2 >= e2.len() {
                assert(e3 + Seq::<u8>::empty() =~= e3);
                lemma_step_take::<Vec<i64>>(m.offset, Seq::<u8>::empty(), k2 - e2.len());
            }
        }
    }
}

/// All partition answers of one topic, under its name.
#[derive(Clone, Debug, Default, PartialEq, Eq)]
pub struct TopicPartitionOffsetResponse {
    pub topic: String,
    pub partitions: Vec<PartitionOffsetResponse>,
}

/// The abstract value of one topic's answers.
pub struct TopicPartitionOffsetResponseView {
    pub topic: Seq<char>,
    pub partitions: Seq<PartitionOffsetResponseView>,
}

impl DeepView for TopicPartitionOffsetResponse {
    type V = TopicPartitionOffsetResponseView;

    open spec fn deep_view(&self) -> TopicPartitionOffsetResponseView {
        TopicPartitionOffsetResponseView {
            topic: self.topic@,
            partitions: self.partitions.deep_view(),
        }
    }
}

impl Encode for TopicPartitionOffsetResponse {
    open spec fn wf(m: TopicPartitionOffsetResponseView) -> bool {
        &&& str_wf(m.topic)
        &&& seq_wf::<PartitionOffsetResponse>(m.partitions)
    }

    open spec fn enc(m: TopicPartitionOffsetResponseView) -> Seq<u8> {
        str_enc(m.topic) + seq_enc::<PartitionOffsetResponse>(m.partitions)
    }

    fn encode(&self, out: &mut Vec<u8>) -> (r: Result<(), Error>) {
        let ghost out0 = out@;
        self.topic.encode(out)?;
        self.partitions.encode(out)?;
        proof {
            assert(out@ =~= out0 + Self::enc(self.deep_view()));
        }
        Ok(())
    }
}

impl Decode for TopicPartitionOffsetResponse {
    open spec fn dec(b: Seq<u8>) -> Result<(TopicPartitionOffsetResponseView, int), Error> {
        match <String as Decode>::dec(b) {
            Err(e) => Err(e),
            Ok((topic, k1)) => match <Vec<PartitionOffsetResponse> as Decode>::dec(b.skip(k1)) {
                Err(e) => Err(e),
                Ok((partitions, k2)) => Ok(
                    (TopicPartitionOffsetResponseView { topic, partitions }, k1 + k2),
                ),
            },
        }
    }

    fn decode(data: &Vec<u8>, pos: usize) -> (r: Result<(Self, usize), Error>) {
        let ghost b = data@.skip(pos as int);
        let (topic, q1) = match <String as Decode>::decode(data, pos) {
            Ok(v) => v,
            Err(e) => {
                return Err(e);
            },
        };
        proof {
            <String as Decode>::lemma_dec_bounds(b);
            lemma_skip_skip(data@, pos as int, q1 as int - pos as int);
        }
        let (partitions, q2) = match <Vec<PartitionOffsetResponse> as Decode>::decode(data, q1) {
            Ok(v) => v,
            Err(e) => {
                return Err(e);
            },
        };
        Ok((TopicPartitionOffsetResponse { topic, partitions }, q2))
    }

    proof fn lemma_dec_bounds(b: Seq<u8>) {
        match <String as Decode>::dec(b) {
            Err(_) => {},
            Ok((topic, k1)) => {
                <String as Decode>::lemma_dec_bounds(b);
                <Vec<PartitionOffsetResponse> as Decode>::lemma_dec_bounds(b.skip(k1));
            },
        }
    }
}

impl Codec for TopicPartitionOffsetResponse {
    #[verifier::rlimit(100)]
    proof fn lemma_round_trip(m: TopicPartitionOffsetResponseView, rest: Seq<u8>) {
        let e1 = str_enc(m.topic);
        let e2 = seq_enc::<PartitionOffsetResponse>(m.partitions);
        let s1 = e2 + rest;
        assert(Self::enc(m) + rest =~= e1 + s1);
        lemma_step_ok::<String>(m.topic, s1);
        lemma_step_ok::<Vec<PartitionOffsetResponse>>(m.partitions, rest);
    }

    proof fn lemma_enc_len(m: TopicPartitionOffsetResponseView) {
    }

    #[verifier::rlimit(100)]
    proof fn lemma_truncated(m: TopicPartitionOffsetResponseView, k: int) {
        let e1 = str_enc(m.topic);
        let e2 = seq_enc::<PartitionOffsetResponse>(m.partitions);
        let s1 = e2;
        assert(Self::enc(m) =~= e1 + s1);
        lemma_step_take::<String>(m.topic, s1, k);
        if k >= e1.len() {
            assert(e2 + Seq::<u8>::empty() =~= e2);
            lemma_step_take::<Vec<PartitionOffsetResponse>>(
                m.partitions,
                Seq::<u8>::empty(),
                k - e1.len(),
            );
        }
    }
}

/// The broker's answer to an offset request: the response header and, per
/// topic, the partition answers.
#[derive(Clone, Debug, Default, PartialEq, Eq)]
pub struct OffsetResponse {
    pub header: HeaderResponse,
    pub topic_partitions: Vec<TopicPartitionOffsetResponse>,
}

/// The abstract value of an offset response.
pub struct OffsetResponseView {
    pub header: HeaderResponseView,
    pub topic_partitions: Seq<TopicPartitionOffsetResponseView>,
}

impl DeepView for OffsetResponse {
    type V = OffsetResponseView;

    open spec fn deep_view(&self) -> OffsetResponseView {
        OffsetResponseView {
            header: self.header.deep_view(),
            topic_partitions: self.topic_partitions.deep_view(),
        }
    }
}

impl OffsetResponse {
    /// Populates `self` in place with the message decoded from `data` at
    /// `pos`, returning the position just past it. On failure the message is
    /// untouched but must be treated as unspecified and discarded.
    pub fn decode_into(&mut self, data: &Vec<u8>, pos: usize) -> (r: Result<usize, Error>)
        requires
            pos <= data.len(),
        ensures
            match <OffsetResponse as Decode>::dec(data@.skip(pos as int)) {
                Ok((m, n)) => r is Ok && final(self).deep_view() == m && r->Ok_0 == pos + n,
                Err(e) => r == Err::<usize, Error>(e),
            },
    {
        match <OffsetResponse as Decode>::decode(data, pos) {
            Ok((v, q)) => {
                *self = v;
                Ok(q)
            },
            Err(e) => Err(e),
        }
    }
}

impl Encode for OffsetResponse {
    open spec fn wf(m: OffsetResponseView) -> bool {
        seq_wf::<TopicPartitionOffsetResponse>(m.topic_partitions)
    }

    open spec fn enc(m: OffsetResponseView) -> Seq<u8> {
        <HeaderResponse as Encode>::enc(m.header) + seq_enc::<TopicPartitionOffsetResponse>(
            m.topic_partitions,
        )
    }

    fn encode(&self, out: &mut Vec<u8>) -> (r: Result<(), Error>) {
        let ghost out0 = out@;
        self.header.encode(out)?;
        self.topic_partitions.encode(out)?;
        proof {
            assert(out@ =~= out0 + Self::enc(self.deep_view()));
        }
        Ok(())
    }
}

impl Decode for OffsetResponse {
    open spec fn dec(b: Seq<u8>) -> Result<(OffsetResponseView, int), Error> {
        match <HeaderResponse as Decode>::dec(b) {
            Err(e) => Err(e),
            Ok((header, k1)) => match <Vec<TopicPartitionOffsetResponse> as Decode>::dec(
                b.skip(k1),
            ) {
                Err(e) => Err(e),
                Ok((topic_partitions, k2)) => Ok(
                    (OffsetResponseView { header, topic_partitions }, k1 + k2),
                ),
            },
        }
    }

    fn decode(data: &Vec<u8>, pos: usize) -> (r: Result<(Self, usize), Error>) {
        let ghost b = data@.skip(pos as int);
        let (header, q1) = match <HeaderResponse as Decode>::decode(data, pos) {
            Ok(v) => v,
            Err(e) => {
                return Err(e);
            },
        };
        proof {
            <HeaderResponse as Decode>::lemma_dec_bounds(b);
            lemma_skip_skip(data@, pos as int, q1 as int - pos as int);
        }
        let (topic_partitions, q2) = match <Vec<TopicPartitionOffsetResponse> as Decode>::decode(
            data,
            q1,
        ) {
            Ok(v) => v,
            Err(e) => {
                return Err(e);
            },
        };
        Ok((OffsetResponse { header, topic_partitions }, q2))
    }

    proof fn lemma_dec_bounds(b: Seq<u8>) {
        match <HeaderResponse as Decode>::dec(b) {
            Err(_) => {},
            Ok((header, k1)) => {
                <Vec<TopicPartitionOffsetResponse> as Decode>::lemma_dec_bounds(b.skip(k1));
            },
        }
    }
}

impl Codec for OffsetResponse {
    #[verifier::rlimit(100)]
    proof fn lemma_round_trip(m: OffsetResponseView, rest: Seq<u8>) {
        let e1 = <HeaderResponse as Encode>::enc(m.header);
        let e2 = seq_enc::<TopicPartitionOffsetResponse>(m.topic_partitions);
        let s1 = e2 + rest;
        assert(Self::enc(m) + rest =~= e1 + s1);
        lemma_step_ok::<HeaderResponse>(m.header, s1);
        lemma_step_ok::<Vec<TopicPartitionOffsetResponse>>(m.topic_partitions, rest);
    }

    proof fn lemma_enc_len(m: OffsetResponseView) {
    }

    #[verifier::rlimit(100)]
    proof fn lemma_truncated(m: OffsetResponseView, k: int) {
        let e1 = <HeaderResponse as Encode>::enc(m.header);
        let e2 = seq_enc::<TopicPartitionOffsetResponse>(m.topic_partitions);
        let s1 = e2;
        assert(Self::enc(m) =~= e1 + s1);
        lemma_step_take::<HeaderResponse>(m.header, s1, k);
        if k >= e1.len() {
            assert(e2 + Seq::<u8>::empty() =~= e2);
            lemma_step_take::<Vec<TopicPartitionOffsetResponse>>(
                m.topic_partitions,
                Seq::<u8>::empty(),
                k - e1.len(),
            );
        }
    }
}

} // verus!
