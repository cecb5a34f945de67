use ciborium::value::Value;
use coedit::client;
use coedit::encoding::{encode_edit, DecodeError};
use coedit::operation::{Operation, OperationSeq};
use coedit::protocol::{ClientMessage, ServerMessage};
use coedit::wire::{take_head, take_text, take_unsigned, write_head, write_text, write_unsigned};

fn build(steps: &[Operation]) -> OperationSeq {
    let mut seq = OperationSeq::new();
    for step in steps {
        seq.add(step);
    }
    seq
}

fn retain(n: u64) -> Operation {
    Operation::Retain(n)
}

fn delete(n: u64) -> Operation {
    Operation::Delete(n)
}

fn insert(s: &str) -> Operation {
    Operation::Insert(s.to_string())
}

fn text(s: &str) -> Value {
    Value::Text(s.to_string())
}

fn cbor(value: &Value) -> Vec<u8> {
    let mut bytes = Vec::new();
    ciborium::ser::into_writer(value, &mut bytes).unwrap();
    bytes
}

fn edit_value(seq: &OperationSeq) -> Value {
    Value::Array(
        seq.ops()
            .iter()
            .map(|op| match op {
                Operation::Retain(n) => Value::from(*n),
                Operation::Delete(n) => Value::from(-(*n as i64)),
                Operation::Insert(s) => text(s),
            })
            .collect(),
    )
}

#[test]
fn heads_take_the_shortest_form() {
    let cases: Vec<(u64, Vec<u8>)> = vec![
        (0, vec![0x00]),
        (23, vec![0x17]),
        (24, vec![0x18, 0x18]),
        (255, vec![0x18, 0xff]),
        (256, vec![0x19, 0x01, 0x00]),
        (65535, vec![0x19, 0xff, 0xff]),
        (65536, vec![0x1a, 0x00, 0x01, 0x00, 0x00]),
        (4294967295, vec![0x1a, 0xff, 0xff, 0xff, 0xff]),
        (4294967296, vec![0x1b, 0, 0, 0, 1, 0, 0, 0, 0]),
        (u64::MAX, vec![0x1b, 0xff, 0xff, 0xff, 0xff, 0xff, 0xff, 0xff, 0xff]),
    ];
    for (value, bytes) in cases {
        let mut out = Vec::new();
        write_unsigned(&mut out, value);
        assert_eq!(out, bytes);
        assert_eq!(take_unsigned(&out, 0), Some((value, bytes.len())));
        assert_eq!(take_head(&out, 0), Some((0, value, bytes.len())));
    }
}

#[test]
fn heads_carry_the_major_type() {
    let mut out = vec![0xee];
    write_head(&mut out, 5, 3);
    write_head(&mut out, 4, 300);
    assert_eq!(out, vec![0xee, 0xa3, 0x99, 0x01, 0x2c]);
    assert_eq!(take_head(&out, 1), Some((5, 3, 2)));
    assert_eq!(take_head(&out, 2), Some((4, 300, 5)));
    assert_eq!(take_head(&out, 5), None);
    assert_eq!(take_unsigned(&out, 1), None);
}

#[test]
fn heads_need_not_be_shortest_when_read() {
    assert_eq!(take_head(&[0x18, 0x05], 0), Some((0, 5, 2)));
    assert_eq!(take_head(&[0x1b, 0, 0, 0, 0, 0, 0, 0, 7], 0), Some((0, 7, 9)));
}

#[test]
fn truncated_and_reserved_heads_are_refused() {
    assert_eq!(take_head(&[], 0), None);
    assert_eq!(take_head(&[0x19, 0x01], 0), None);
    assert_eq!(take_head(&[0x1c], 0), None);
    assert_eq!(take_head(&[0x1f], 0), None);
    assert_eq!(take_head(&[0x00], 1), None);
    assert_eq!(take_head(&[0x00], 7), None);
}

#[test]
fn texts_are_written_as_utf8() {
    let mut out = Vec::new();
    write_text(&mut out, "héllo");
    assert_eq!(out, vec![0x66, b'h', 0xc3, 0xa9, b'l', b'l', b'o']);
    assert_eq!(take_text(&out, 0), Some(("héllo".to_string(), 7)));
}

#[test]
fn texts_that_are_not_utf8_are_refused() {
    assert_eq!(take_text(&[0x62, 0xc3, 0x28], 0), None);
    assert_eq!(take_text(&[0x62, b'a'], 0), None);
    assert_eq!(take_text(&[0x42, b'a', b'b'], 0), None);
    assert_eq!(take_text(&[0x60], 0), Some((String::new(), 1)));
}

#[test]
fn ack_bytes() {
    let bytes = ServerMessage::Ack { up_to: 2 }.encode();
    let mut expected = vec![0xa2, 0x64];
    expected.extend_from_slice(b"kind");
    expected.push(0x63);
    expected.extend_from_slice(b"ack");
    expected.push(0x65);
    expected.extend_from_slice(b"up_to");
    expected.push(0x02);
    assert_eq!(bytes, expected);
}

#[test]
fn out_of_sync_bytes() {
    let bytes = ServerMessage::OutOfSync.encode();
    let mut expected = vec![0xa1, 0x64];
    expected.extend_from_slice(b"kind");
    expected.push(0x6b);
    expected.extend_from_slice(b"out_of_sync");
    assert_eq!(bytes, expected);
}

#[test]
fn edit_bytes() {
    let bytes = encode_edit(1, &build(&[insert("X"), delete(3), retain(13)]));
    let mut expected = vec![0xa3, 0x64];
    expected.extend_from_slice(b"kind");
    expected.push(0x64);
    expected.extend_from_slice(b"edit");
    expected.push(0x72);
    expected.extend_from_slice(b"last_seen_revision");
    expected.push(0x01);
    expected.push(0x6a);
    expected.extend_from_slice(b"operations");
    expected.extend_from_slice(&[0x83, 0x61, b'X', 0x22, 0x0d]);
    assert_eq!(bytes, expected);
}

#[test]
fn server_messages_round_trip() {
    let messages = vec![
        ServerMessage::Init { revision: 1, text: "hello, world!".to_string() },
        ServerMessage::Init { revision: 0, text: String::new() },
        ServerMessage::Init { revision: 70000, text: "žluťoučký kůň 🐎 日本語".to_string() },
        ServerMessage::History { start: 3, operations: vec![] },
        ServerMessage::History {
            start: 1,
            operations: vec![
                build(&[insert("X"), retain(13)]),
                OperationSeq::new(),
                build(&[retain(300), insert("ö"), delete(70000), retain(1)]),
            ],
        },
        ServerMessage::Ack { up_to: 0 },
        ServerMessage::Ack { up_to: usize::MAX },
        ServerMessage::OutOfSync,
    ];
    for message in messages {
        let bytes = message.encode();
        assert_eq!(ServerMessage::decode(&bytes), Ok(message));
    }
}

#[test]
fn client_messages_round_trip() {
    let edits = vec![
        OperationSeq::new(),
        build(&[retain(5)]),
        build(&[insert("héllo 🌍"), delete(1), retain(24), insert("x")]),
    ];
    for (revision, edit) in edits.into_iter().enumerate() {
        let bytes = encode_edit(revision, &edit);
        assert_eq!(
            ClientMessage::decode(&bytes),
            Ok(ClientMessage::Edit { last_seen_revision: revision, operations: edit })
        );
    }
}

#[test]
fn decoding_brings_steps_into_canonical_form() {
    let value = Value::Map(vec![
        (text("kind"), text("edit")),
        (text("last_seen_revision"), Value::from(4u64)),
        (
            text("operations"),
            Value::Array(vec![
                Value::from(2u64),
                Value::from(0u64),
                Value::from(3u64),
                Value::from(-2i64),
                text("a"),
                text(""),
                text("b"),
            ]),
        ),
    ]);
    assert_eq!(
        ClientMessage::decode(&cbor(&value)),
        Ok(ClientMessage::Edit {
            last_seen_revision: 4,
            operations: build(&[retain(5), insert("ab"), delete(2)]),
        })
    );
}

#[test]
fn truncated_bytes_are_refused() {
    let bytes = ServerMessage::History {
        start: 1,
        operations: vec![build(&[insert("héllo"), retain(13)])],
    }
    .encode();
    for len in 0..bytes.len() {
        assert_eq!(ServerMessage::decode(&bytes[..len]), Err(DecodeError));
    }
    let edit = encode_edit(1, &build(&[insert("X"), retain(13)]));
    for len in 0..edit.len() {
        assert_eq!(ClientMessage::decode(&edit[..len]), Err(DecodeError));
    }
}

#[test]
fn trailing_bytes_are_refused() {
    for message in [
        ServerMessage::Ack { up_to: 1 },
        ServerMessage::OutOfSync,
        ServerMessage::Init { revision: 1, text: "a".to_string() },
        ServerMessage::History { start: 0, operations: vec![] },
    ] {
        let mut bytes = message.encode();
        bytes.push(0);
        assert_eq!(ServerMessage::decode(&bytes), Err(DecodeError));
    }
    let mut edit = encode_edit(1, &OperationSeq::new());
    edit.push(0);
    assert_eq!(ClientMessage::decode(&edit), Err(DecodeError));
}

#[test]
fn messages_of_the_other_side_are_refused() {
    let edit = encode_edit(1, &OperationSeq::new());
    assert_eq!(ServerMessage::decode(&edit), Err(DecodeError));
    let ack = ServerMessage::Ack { up_to: 1 }.encode();
    assert_eq!(ClientMessage::decode(&ack), Err(DecodeError));
    assert_eq!(ServerMessage::decode(b"hello"), Err(DecodeError));
    assert_eq!(DecodeError.message(), "invalid message");
}

#[test]
fn steps_of_other_types_are_refused() {
    let value = Value::Map(vec![
        (text("kind"), text("edit")),
        (text("last_seen_revision"), Value::from(1u64)),
        (text("operations"), Value::Array(vec![Value::Bool(true)])),
    ]);
    assert_eq!(ClientMessage::decode(&cbor(&value)), Err(DecodeError));
}

#[test]
fn steps_too_long_to_count_are_refused() {
    let value = Value::Map(vec![
        (text("kind"), text("edit")),
        (text("last_seen_revision"), Value::from(1u64)),
        (
            text("operations"),
            Value::Array(vec![Value::from(u64::MAX), Value::from(u64::MAX)]),
        ),
    ]);
    assert_eq!(ClientMessage::decode(&cbor(&value)), Err(DecodeError));
}

#[test]
fn bytes_are_those_of_cbor_maps() {
    let edit = build(&[insert("héllo"), delete(300), retain(13)]);
    let value = Value::Map(vec![
        (text("kind"), text("edit")),
        (text("last_seen_revision"), Value::from(7u64)),
        (text("operations"), edit_value(&edit)),
    ]);
    assert_eq!(encode_edit(7, &edit), cbor(&value));

    let init = Value::Map(vec![
        (text("kind"), text("init")),
        (text("revision"), Value::from(1u64)),
        (text("text"), text("hello, wörld!")),
    ]);
    assert_eq!(
        ServerMessage::Init { revision: 1, text: "hello, wörld!".to_string() }.encode(),
        cbor(&init)
    );

    let history = Value::Map(vec![
        (text("kind"), text("history")),
        (text("start"), Value::from(70000u64)),
        (text("operations"), Value::Array(vec![edit_value(&edit), Value::Array(vec![])])),
    ]);
    assert_eq!(
        ServerMessage::History { start: 70000, operations: vec![edit, OperationSeq::new()] }
            .encode(),
        cbor(&history)
    );

    let ack = Value::Map(vec![(text("kind"), text("ack")), (text("up_to"), Value::from(2u64))]);
    assert_eq!(ServerMessage::Ack { up_to: 2 }.encode(), cbor(&ack));

    let out = Value::Map(vec![(text("kind"), text("out_of_sync"))]);
    assert_eq!(ServerMessage::OutOfSync.encode(), cbor(&out));
}

#[test]
fn bytes_are_read_by_a_cbor_reader() {
    let bytes = ServerMessage::Ack { up_to: 300 }.encode();
    let value: Value = ciborium::de::from_reader(&bytes[..]).unwrap();
    assert_eq!(
        value,
        Value::Map(vec![(text("kind"), text("ack")), (text("up_to"), Value::from(300u64))])
    );
}

#[test]
fn client_builds_with_small_counts() {
    let mut seq = client::OperationSeq::new();
    assert!(seq.is_noop());
    seq.retain(5);
    assert!(seq.is_noop());
    seq.insert("X");
    seq.delete_(2);
    seq.retain(6);
    assert!(!seq.is_noop());
    assert_eq!(seq.0, build(&[retain(5), insert("X"), delete(2), retain(6)]));
    assert_eq!(
        seq.to_js(),
        vec![
            client::JsOperation::Retain { num_codepoints: 5 },
            client::JsOperation::Insert { text: "X".to_string(), len_codepoints: 1 },
            client::JsOperation::Delete { num_codepoints: 2 },
            client::JsOperation::Retain { num_codepoints: 6 },
        ]
    );
}

#[test]
fn client_step_as_a_host_sees_it() {
    assert_eq!(
        client::operation_to_js(&insert("日本")),
        client::JsOperation::Insert { text: "日本".to_string(), len_codepoints: 2 }
    );
    assert_eq!(
        client::operation_to_js(&delete(9)),
        client::JsOperation::Delete { num_codepoints: 9 }
    );
}

#[test]
fn client_transforms_and_composes() {
    let mut a = client::OperationSeq::new();
    a.insert("a");
    let mut b = client::OperationSeq::new();
    b.insert("b");
    let pair = a.transform(&b).unwrap();
    assert_eq!(pair.len(), 2);
    assert_eq!(pair[0].0, build(&[insert("a"), retain(1)]));
    assert_eq!(pair[1].0, build(&[retain(1), insert("b")]));
    assert_eq!(a.compose(&pair[1]).unwrap().0, build(&[insert("ab")]));
    assert_eq!(a.compose(&b), Err("incompatible lengths".to_string()));
    let mut c = client::OperationSeq::new();
    c.retain(1);
    assert_eq!(a.transform(&c), Err("incompatible lengths".to_string()));
}

#[test]
fn client_encodes_edits_and_decodes_messages() {
    let mut seq = client::OperationSeq::new();
    seq.insert("X");
    seq.retain(13);
    let bytes = client::encode_edit(1, &seq);
    assert_eq!(bytes, encode_edit(1, &seq.0));
    assert_eq!(
        ClientMessage::decode(&bytes),
        Ok(ClientMessage::Edit { last_seen_revision: 1, operations: seq.0 })
    );
    assert_eq!(
        client::decode(&ServerMessage::Ack { up_to: 2 }.encode()),
        Ok(ServerMessage::Ack { up_to: 2 })
    );
    assert_eq!(client::decode(&[0xa0]), Err("invalid message".to_string()));
}
