use kvs::codec::{decode, encode};
use kvs::{KvError, Record};

#[test]
fn encode_put_exact_bytes() {
    let rec = Record::Put { key: "a".to_owned(), value: "b".to_owned() };
    let bytes = encode(&rec);
    // frame header: payload length 11; payload: tag, key length 1, "a", "b"
    let expected = vec![
        11u8, 0, 0, 0, 0, 0, 0, 0, // frame length header
        0, // Put tag
        1, 0, 0, 0, 0, 0, 0, 0, // key byte length
        97, // "a"
        98, // "b"
    ];
    assert_eq!(bytes, expected);
}

#[test]
fn encode_remove_exact_bytes() {
    let rec = Record::Remove { key: "hi".to_owned() };
    let bytes = encode(&rec);
    let expected = vec![
        3u8, 0, 0, 0, 0, 0, 0, 0, // frame length header
        1, // Remove tag
        104, 105, // "hi"
    ];
    assert_eq!(bytes, expected);
}

#[test]
fn decode_inverts_encode() {
    let records = vec![
        Record::Put { key: "".to_owned(), value: "".to_owned() },
        Record::Put { key: "key".to_owned(), value: "value".to_owned() },
        Record::Put { key: "clé".to_owned(), value: "välue ⚙".to_owned() },
        Record::Remove { key: "".to_owned() },
        Record::Remove { key: "some key".to_owned() },
    ];
    for rec in records {
        let bytes = encode(&rec);
        assert_eq!(decode(&bytes).unwrap(), rec);
    }
}

#[test]
fn decode_rejects_malformed_bytes() {
    // too short for a header
    assert_eq!(decode(&[5u8, 0, 0]), Err(KvError::Serialization));
    // header does not match the span
    assert_eq!(
        decode(&[9u8, 0, 0, 0, 0, 0, 0, 0, 0]),
        Err(KvError::Serialization)
    );
    // unknown tag
    assert_eq!(
        decode(&[1u8, 0, 0, 0, 0, 0, 0, 0, 9]),
        Err(KvError::Serialization)
    );
    // Put payload shorter than its key length field claims
    assert_eq!(
        decode(&[10u8, 0, 0, 0, 0, 0, 0, 0, 0, 200, 0, 0, 0, 0, 0, 0, 0, 97]),
        Err(KvError::Serialization)
    );
    // key bytes that are not UTF-8
    assert_eq!(
        decode(&[2u8, 0, 0, 0, 0, 0, 0, 0, 1, 0xff]),
        Err(KvError::Serialization)
    );
}

#[test]
fn decode_needs_exactly_one_frame() {
    let rec = Record::Put { key: "k".to_owned(), value: "v".to_owned() };
    let mut bytes = encode(&rec);
    // trailing byte: the span no longer holds exactly one frame
    bytes.push(0);
    assert_eq!(decode(&bytes), Err(KvError::Serialization));
}
