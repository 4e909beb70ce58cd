use kafka_codec::codecs::{Decode, Encode};
use kafka_codec::error::Error;

fn enc<T: Encode>(v: &T) -> Vec<u8> {
    let mut out = Vec::new();
    v.encode(&mut out).unwrap();
    out
}

#[test]
fn i16_exact_bytes() {
    assert_eq!(enc(&0x1234i16), vec![0x12, 0x34]);
    assert_eq!(enc(&-1i16), vec![0xff, 0xff]);
    assert_eq!(enc(&0i16), vec![0x00, 0x00]);
}

#[test]
fn i32_exact_bytes() {
    assert_eq!(enc(&7i32), vec![0x00, 0x00, 0x00, 0x07]);
    assert_eq!(enc(&-1i32), vec![0xff, 0xff, 0xff, 0xff]);
    assert_eq!(enc(&0x0102_0304i32), vec![0x01, 0x02, 0x03, 0x04]);
}

#[test]
fn i64_exact_bytes() {
    assert_eq!(
        enc(&0x0102_0304_0506_0708i64),
        vec![0x01, 0x02, 0x03, 0x04, 0x05, 0x06, 0x07, 0x08]
    );
    assert_eq!(enc(&-1i64), vec![0xff; 8]);
}

#[test]
fn integer_round_trips() {
    for v in [i16::MIN, -1, 0, 1, 0x1234, i16::MAX] {
        let buf = enc(&v);
        let (back, used) = <i16 as Decode>::decode(&buf, 0).unwrap();
        assert_eq!((back, used), (v, 2));
    }
    for v in [i32::MIN, -1, 0, 1, i32::MAX] {
        let buf = enc(&v);
        let (back, used) = <i32 as Decode>::decode(&buf, 0).unwrap();
        assert_eq!((back, used), (v, 4));
    }
    for v in [i64::MIN, -1, 0, 1, i64::MAX] {
        let buf = enc(&v);
        let (back, used) = <i64 as Decode>::decode(&buf, 0).unwrap();
        assert_eq!((back, used), (v, 8));
    }
}

#[test]
fn integer_truncated_fails() {
    assert_eq!(<i32 as Decode>::decode(&vec![0, 0, 0], 0), Err(Error::Framing));
    assert_eq!(<i16 as Decode>::decode(&vec![9], 0), Err(Error::Framing));
    assert_eq!(<i64 as Decode>::decode(&vec![1, 2, 3, 4, 5, 6, 7], 0), Err(Error::Framing));
}

#[test]
fn string_exact_bytes() {
    let s = String::from("ab");
    assert_eq!(enc(&s), vec![0x00, 0x02, b'a', b'b']);
    let empty = String::new();
    assert_eq!(enc(&empty), vec![0x00, 0x00]);
}

#[test]
fn string_round_trip() {
    for text in ["", "a", "hello world", "caf\u{e9} \u{2603}"] {
        let s = String::from(text);
        let buf = enc(&s);
        let (back, used) = <String as Decode>::decode(&buf, 0).unwrap();
        assert_eq!(back, s);
        assert_eq!(used, buf.len());
    }
}

#[test]
fn string_multibyte_decodes_to_chars() {
    // 0xc3 0xa9 is the two-byte UTF-8 encoding of one character.
    let buf = vec![0x00, 0x02, 0xc3, 0xa9];
    let (back, used) = <String as Decode>::decode(&buf, 0).unwrap();
    assert_eq!(used, 4);
    assert_eq!(back.chars().count(), 1);
    assert_eq!(back, "\u{e9}");
}

#[test]
fn string_invalid_utf8_is_encoding_error() {
    let buf = vec![0x00, 0x01, 0xff];
    assert_eq!(<String as Decode>::decode(&buf, 0), Err(Error::Encoding));
}

#[test]
fn string_negative_length_is_framing_error() {
    // Length -2: no optional-string sentinel, just malformed framing.
    let buf = vec![0xff, 0xfe];
    assert_eq!(<String as Decode>::decode(&buf, 0), Err(Error::Framing));
}

#[test]
fn string_short_payload_is_framing_error() {
    let buf = vec![0x00, 0x03, b'a', b'b'];
    assert_eq!(<String as Decode>::decode(&buf, 0), Err(Error::Framing));
}

#[test]
fn string_too_long_to_encode_is_encoding_error() {
    let s: String = "x".repeat(0x8000);
    let mut out = Vec::new();
    assert_eq!(s.encode(&mut out), Err(Error::Encoding));
}

#[test]
fn absent_string_sentinel() {
    // An absent optional string is exactly a length of -1 and nothing else.
    let absent: Option<String> = None;
    assert_eq!(enc(&absent), vec![0xff, 0xff]);
    let (back, used) = <Option<String> as Decode>::decode(&vec![0xff, 0xff], 0).unwrap();
    assert_eq!(back, None);
    assert_eq!(used, 2);
    // With trailing bytes the sentinel still decodes to the absent value.
    let (back, used) = <Option<String> as Decode>::decode(&vec![0xff, 0xff, 9, 9], 0).unwrap();
    assert_eq!(back, None);
    assert_eq!(used, 2);
}

#[test]
fn present_optional_string_round_trip() {
    let some = Some(String::from("topic"));
    let buf = enc(&some);
    assert_eq!(buf[..2], [0x00, 0x05]);
    let (back, used) = <Option<String> as Decode>::decode(&buf, 0).unwrap();
    assert_eq!(back, some);
    assert_eq!(used, buf.len());
}

#[test]
fn sequence_exact_bytes() {
    let v: Vec<i16> = vec![1, -1];
    assert_eq!(enc(&v), vec![0x00, 0x00, 0x00, 0x02, 0x00, 0x01, 0xff, 0xff]);
    let empty: Vec<i32> = Vec::new();
    assert_eq!(enc(&empty), vec![0x00, 0x00, 0x00, 0x00]);
}

#[test]
fn sequence_round_trip() {
    let v: Vec<i64> = vec![5, -3, i64::MAX];
    let buf = enc(&v);
    let (back, used) = <Vec<i64> as Decode>::decode(&buf, 0).unwrap();
    assert_eq!(back, v);
    assert_eq!(used, buf.len());
}

#[test]
fn nested_sequence_round_trip() {
    let v: Vec<Vec<i32>> = vec![vec![1, 2], vec![], vec![3]];
    let buf = enc(&v);
    let (back, used) = <Vec<Vec<i32>> as Decode>::decode(&buf, 0).unwrap();
    assert_eq!(back, v);
    assert_eq!(used, buf.len());
}

#[test]
fn sequence_of_strings_round_trip() {
    let v: Vec<String> = vec![String::from("a"), String::from(""), String::from("bc")];
    let buf = enc(&v);
    let (back, used) = <Vec<String> as Decode>::decode(&buf, 0).unwrap();
    assert_eq!(back, v);
    assert_eq!(used, buf.len());
}

#[test]
fn count_larger_than_remaining_is_rejected() {
    // Five declared elements, no bytes after the count.
    let buf = vec![0x00, 0x00, 0x00, 0x05];
    assert_eq!(<Vec<i16> as Decode>::decode(&buf, 0), Err(Error::Framing));
    // A huge count is rejected up front, no allocation proportional to it.
    let buf = vec![0x7f, 0xff, 0xff, 0xff, 0x00];
    assert_eq!(<Vec<i64> as Decode>::decode(&buf, 0), Err(Error::Framing));
}

#[test]
fn negative_count_is_rejected() {
    let buf = vec![0xff, 0xff, 0xff, 0xff];
    assert_eq!(<Vec<i16> as Decode>::decode(&buf, 0), Err(Error::Framing));
}

#[test]
fn sequence_truncated_inside_element_fails() {
    let v: Vec<i32> = vec![1, 2];
    let buf = enc(&v);
    for k in 0..buf.len() {
        let cut = buf[..k].to_vec();
        assert_eq!(<Vec<i32> as Decode>::decode(&cut, 0), Err(Error::Framing));
    }
}

#[test]
fn decode_starts_at_position() {
    let buf = vec![9, 9, 0x00, 0x07];
    let (v, used) = <i16 as Decode>::decode(&buf, 2).unwrap();
    assert_eq!(v, 7);
    assert_eq!(used, 4);
}
