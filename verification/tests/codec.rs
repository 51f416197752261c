use task_store::codec::{CodecError, decode, encode};
use task_store::task::{Status, Task};

fn le(n: u64) -> Vec<u8> {
    n.to_le_bytes().to_vec()
}

#[test]
fn encode_empty_collection_is_a_zero_count() {
    let out = encode(&Vec::new());
    assert_eq!(out, vec![0u8; 8]);
}

#[test]
fn encode_one_task_exact_bytes() {
    let tasks = vec![Task { id: 1, title: String::from("A"), status: Status::InProgress }];
    let mut expected = le(1);
    expected.extend_from_slice(&le(1));
    expected.push(1);
    expected.extend_from_slice(&le(1));
    expected.push(0x41);
    assert_eq!(encode(&tasks), expected);
}

#[test]
fn decode_undoes_encode() {
    let tasks = vec![
        Task { id: 1, title: String::from(""), status: Status::Pending },
        Task { id: 2, title: String::from("naïve café ☕"), status: Status::InProgress },
        Task { id: 900, title: String::from("x".repeat(300)), status: Status::Completed },
    ];
    let decoded = decode(&encode(&tasks)).unwrap();
    assert_eq!(decoded, tasks);
}

#[test]
fn decode_empty_input_is_corrupt() {
    assert_eq!(decode(&Vec::new()).unwrap_err(), CodecError::CorruptState);
}

#[test]
fn decode_truncated_task_is_corrupt() {
    let tasks = vec![Task { id: 5, title: String::from("abc"), status: Status::Pending }];
    let mut bytes = encode(&tasks);
    bytes.pop();
    assert_eq!(decode(&bytes).unwrap_err(), CodecError::CorruptState);
}

#[test]
fn decode_trailing_bytes_are_corrupt() {
    let tasks = vec![Task { id: 5, title: String::from("abc"), status: Status::Pending }];
    let mut bytes = encode(&tasks);
    bytes.push(0);
    assert_eq!(decode(&bytes).unwrap_err(), CodecError::CorruptState);
}

#[test]
fn decode_unknown_status_tag_is_invalid_status() {
    let mut bytes = le(1);
    bytes.extend_from_slice(&le(7));
    bytes.push(3);
    bytes.extend_from_slice(&le(0));
    assert_eq!(decode(&bytes).unwrap_err(), CodecError::InvalidStatus);
}

#[test]
fn decode_invalid_utf8_title_is_corrupt() {
    let mut bytes = le(1);
    bytes.extend_from_slice(&le(7));
    bytes.push(0);
    bytes.extend_from_slice(&le(2));
    bytes.push(0xff);
    bytes.push(0xfe);
    assert_eq!(decode(&bytes).unwrap_err(), CodecError::CorruptState);
}

#[test]
fn decode_recovers_multibyte_titles_exactly() {
    let title = String::from("héllo");
    let tasks = vec![Task { id: 1, title: title.clone(), status: Status::Pending }];
    let decoded = decode(&encode(&tasks)).unwrap();
    assert_eq!(decoded[0].title, title);
    assert_eq!(decoded[0].title.chars().count(), 5);
}

#[test]
fn decode_overlong_length_field_is_corrupt() {
    let mut bytes = le(1);
    bytes.extend_from_slice(&le(7));
    bytes.push(0);
    bytes.extend_from_slice(&le(100));
    bytes.push(b'a');
    assert_eq!(decode(&bytes).unwrap_err(), CodecError::CorruptState);
}
