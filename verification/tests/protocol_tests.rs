use kafka_codec::codecs::{Decode, Encode};
use kafka_codec::error::{Error, KafkaCode};
use kafka_codec::protocol::metadata::{BrokerMetadata, MetadataRequest, MetadataResponse,
    PartitionMetadata, TopicMetadata};
use kafka_codec::protocol::offset::{OffsetRequest, OffsetResponse, PartitionOffsetRequest,
    PartitionOffsetResponse, TopicPartitionOffsetRequest, TopicPartitionOffsetResponse};
use kafka_codec::protocol::HeaderResponse;
use kafka_codec::utils::PartitionOffset;

fn enc<T: Encode>(v: &T) -> Vec<u8> {
    let mut out = Vec::new();
    v.encode(&mut out).unwrap();
    out
}

#[test]
fn metadata_request_exact_bytes() {
    let req = MetadataRequest::new(7, String::from("cl"), vec![String::from("a"),
        String::from("b")]);
    let expected = vec![
        0x00, 0x03, // api key: metadata
        0x00, 0x00, // api version
        0x00, 0x00, 0x00, 0x07, // correlation id
        0x00, 0x02, b'c', b'l', // client id
        0x00, 0x00, 0x00, 0x02, // two topics
        0x00, 0x01, b'a', 0x00, 0x01, b'b',
    ];
    assert_eq!(enc(&req), expected);
}

#[test]
fn offset_request_exact_bytes() {
    let mut req = OffsetRequest::new(3, String::from("c"));
    req.add("t", 5, -1);
    let expected = vec![
        0x00, 0x02, // api key: offsets
        0x00, 0x00, // api version
        0x00, 0x00, 0x00, 0x03, // correlation id
        0x00, 0x01, b'c', // client id
        0xff, 0xff, 0xff, 0xff, // replica: any
        0x00, 0x00, 0x00, 0x01, // one topic group
        0x00, 0x01, b't', // topic
        0x00, 0x00, 0x00, 0x01, // one partition query
        0x00, 0x00, 0x00, 0x05, // partition
        0xff, 0xff, 0xff, 0xff, 0xff, 0xff, 0xff, 0xff, // time: latest
        0x00, 0x00, 0x00, 0x01, // max offsets
    ];
    assert_eq!(enc(&req), expected);
}

#[test]
fn partition_offset_request_field_order() {
    // Wire order is partition, time, max_offsets, not declaration order.
    let p = PartitionOffsetRequest::new(5, -1);
    assert_eq!(p.max_offsets, 1);
    let expected = vec![
        0x00, 0x00, 0x00, 0x05, // partition first
        0xff, 0xff, 0xff, 0xff, 0xff, 0xff, 0xff, 0xff, // then the timestamp
        0x00, 0x00, 0x00, 0x01, // the count cap last
    ];
    assert_eq!(enc(&p), expected);
}

#[test]
fn add_groups_same_topic_once() {
    let mut req = OffsetRequest::new(1, String::from("c"));
    req.add("alpha", 0, -1);
    req.add("alpha", 1, -2);
    assert_eq!(req.topic_partitions.len(), 1);
    let group = &req.topic_partitions[0];
    assert_eq!(group.topic, "alpha");
    assert_eq!(group.partitions.len(), 2);
    assert_eq!((group.partitions[0].partition, group.partitions[0].time), (0, -1));
    assert_eq!((group.partitions[1].partition, group.partitions[1].time), (1, -2));
    assert_eq!(group.partitions[0].max_offsets, 1);
}

#[test]
fn add_opens_new_group_per_topic_in_first_seen_order() {
    let mut req = OffsetRequest::new(1, String::from("c"));
    req.add("b", 0, -1);
    req.add("a", 1, -1);
    req.add("b", 2, -1);
    assert_eq!(req.topic_partitions.len(), 2);
    assert_eq!(req.topic_partitions[0].topic, "b");
    assert_eq!(req.topic_partitions[0].partitions.len(), 2);
    assert_eq!(req.topic_partitions[1].topic, "a");
    assert_eq!(req.topic_partitions[1].partitions.len(), 1);
    assert_eq!(req.replica, -1);
}

#[test]
fn topic_group_add_appends() {
    let mut tp = TopicPartitionOffsetRequest::new("t");
    tp.add(4, 99);
    assert_eq!(tp.topic, "t");
    assert_eq!(tp.partitions, vec![PartitionOffsetRequest::new(4, 99)]);
}

#[test]
fn metadata_response_round_trip() {
    let resp = MetadataResponse {
        header: HeaderResponse { correlation_id: 42 },
        brokers: vec![
            BrokerMetadata { node_id: 1, host: String::from("h1"), port: 9092 },
            BrokerMetadata { node_id: 2, host: String::from(""), port: -1 },
        ],
        topics: vec![TopicMetadata {
            error: 0,
            topic: String::from("logs"),
            partitions: vec![PartitionMetadata {
                error: 3,
                id: 0,
                leader: -1,
                replicas: vec![1, 2],
                isr: vec![2],
            }],
        }],
    };
    let buf = enc(&resp);
    let (back, used) = <MetadataResponse as Decode>::decode(&buf, 0).unwrap();
    assert_eq!(back, resp);
    assert_eq!(used, buf.len());
}

#[test]
fn metadata_response_truncation_always_framing() {
    let resp = MetadataResponse {
        header: HeaderResponse { correlation_id: 7 },
        brokers: vec![BrokerMetadata { node_id: 5, host: String::from("x"), port: 1 }],
        topics: vec![TopicMetadata { error: 0, topic: String::from("t"), partitions: vec![] }],
    };
    let buf = enc(&resp);
    for k in 0..buf.len() {
        let cut = buf[..k].to_vec();
        assert_eq!(<MetadataResponse as Decode>::decode(&cut, 0), Err(Error::Framing));
    }
}

#[test]
fn offset_response_round_trip() {
    let resp = OffsetResponse {
        header: HeaderResponse { correlation_id: -9 },
        topic_partitions: vec![TopicPartitionOffsetResponse {
            topic: String::from("t"),
            partitions: vec![
                PartitionOffsetResponse { partition: 0, error: 0, offset: vec![10, 20] },
                PartitionOffsetResponse { partition: 1, error: 6, offset: vec![] },
            ],
        }],
    };
    let buf = enc(&resp);
    let (back, used) = <OffsetResponse as Decode>::decode(&buf, 0).unwrap();
    assert_eq!(back, resp);
    assert_eq!(used, buf.len());
}

#[test]
fn offset_response_truncation_always_framing() {
    let resp = OffsetResponse {
        header: HeaderResponse { correlation_id: 1 },
        topic_partitions: vec![TopicPartitionOffsetResponse {
            topic: String::from("u"),
            partitions: vec![PartitionOffsetResponse { partition: 2, error: 0, offset: vec![7] }],
        }],
    };
    let buf = enc(&resp);
    for k in 0..buf.len() {
        let cut = buf[..k].to_vec();
        assert_eq!(<OffsetResponse as Decode>::decode(&cut, 0), Err(Error::Framing));
    }
}

#[test]
fn decode_into_populates_default_instance() {
    let resp = OffsetResponse {
        header: HeaderResponse { correlation_id: 11 },
        topic_partitions: vec![TopicPartitionOffsetResponse {
            topic: String::from("t"),
            partitions: vec![PartitionOffsetResponse { partition: 0, error: 0, offset: vec![1] }],
        }],
    };
    let buf = enc(&resp);
    let mut target = OffsetResponse::default();
    let used = target.decode_into(&buf, 0).unwrap();
    assert_eq!(target, resp);
    assert_eq!(used, buf.len());

    let mut meta = MetadataResponse::default();
    assert_eq!(meta.decode_into(&vec![0, 0], 0), Err(Error::Framing));
}

#[test]
fn error_takes_precedence_over_offsets() {
    let resp = PartitionOffsetResponse { partition: 2, error: 1, offset: vec![100] };
    assert_eq!(resp.into_offset(), Err(KafkaCode::OffsetOutOfRange));
}

#[test]
fn empty_offsets_fall_back_to_minus_one() {
    let resp = PartitionOffsetResponse { partition: 3, error: 0, offset: vec![] };
    assert_eq!(resp.into_offset(), Ok(PartitionOffset { partition: 3, offset: -1 }));
}

#[test]
fn first_offset_wins_on_success() {
    let resp = PartitionOffsetResponse { partition: 4, error: 0, offset: vec![55, 66] };
    assert_eq!(resp.into_offset(), Ok(PartitionOffset { partition: 4, offset: 55 }));
}

#[test]
fn error_codes_translate() {
    assert_eq!(KafkaCode::from_protocol(0), None);
    assert_eq!(KafkaCode::from_protocol(1), Some(KafkaCode::OffsetOutOfRange));
    assert_eq!(KafkaCode::from_protocol(3), Some(KafkaCode::UnknownTopicOrPartition));
    assert_eq!(KafkaCode::from_protocol(6), Some(KafkaCode::NotLeaderForPartition));
    assert_eq!(KafkaCode::from_protocol(31), Some(KafkaCode::ClusterAuthorizationFailed));
    // Unrecognized codes stay visible, carrying the raw value.
    assert_eq!(KafkaCode::from_protocol(13), Some(KafkaCode::Unknown(13)));
    assert_eq!(KafkaCode::from_protocol(-1), Some(KafkaCode::Unknown(-1)));
    assert_eq!(KafkaCode::from_protocol(999), Some(KafkaCode::Unknown(999)));
}

#[test]
fn unknown_error_is_never_success() {
    let resp = PartitionOffsetResponse { partition: 0, error: 12345, offset: vec![1] };
    assert_eq!(resp.into_offset(), Err(KafkaCode::Unknown(12345)));
}

#[test]
fn metadata_request_all_topics_is_empty_list() {
    let req = MetadataRequest::new(0, String::new(), Vec::new());
    let expected = vec![
        0x00, 0x03, 0x00, 0x00, // header start
        0x00, 0x00, 0x00, 0x00, // correlation id
        0x00, 0x00, // empty client id
        0x00, 0x00, 0x00, 0x00, // zero topics: describe all
    ];
    assert_eq!(enc(&req), expected);
}
