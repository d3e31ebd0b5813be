use mukhidb::protocol::{decode_rows, read_message, write_message, ByteReader, Message, ProtocolError};

fn round_trip(msg: Message) -> Message {
    let mut buf = Vec::new();
    write_message(&mut buf, &msg).unwrap();
    let mut cursor = ByteReader::new(buf);
    read_message(&mut cursor).unwrap()
}

#[test]
fn query_round_trip() {
    let m = Message::Query("SELECT * FROM users".to_string());
    assert_eq!(round_trip(m.clone()), m);
}

#[test]
fn ok_round_trip() {
    let m = Message::Okay("1 row inserted.".to_string());
    assert_eq!(round_trip(m.clone()), m);
}

#[test]
fn error_round_trip() {
    let m = Message::Error("Table not found.".to_string());
    assert_eq!(round_trip(m.clone()), m);
}

#[test]
fn rows_round_trip() {
    let m = Message::Rows {
        headers: vec!["id".into(), "name".into()],
        rows: vec![
            vec!["1".into(), "Alice".into()],
            vec!["2".into(), "Bob".into()],
        ],
    };
    assert_eq!(round_trip(m.clone()), m);
}

#[test]
fn empty_rows_round_trip() {
    let m = Message::Rows {
        headers: vec!["id".into()],
        rows: vec![],
    };
    assert_eq!(round_trip(m.clone()), m);
}

#[test]
fn unicode_payload() {
    let m = Message::Query("SELECT * FROM users WHERE name = '日本語'".to_string());
    assert_eq!(round_trip(m.clone()), m);
}

#[test]
fn multiple_messages_in_stream() {
    let mut buf = Vec::new();
    write_message(&mut buf, &Message::Query("q1".into())).unwrap();
    write_message(&mut buf, &Message::Query("q2".into())).unwrap();
    write_message(&mut buf, &Message::Okay("done".into())).unwrap();
    let mut cursor = ByteReader::new(buf);
    assert_eq!(read_message(&mut cursor).unwrap(), Message::Query("q1".into()));
    assert_eq!(read_message(&mut cursor).unwrap(), Message::Query("q2".into()));
    assert_eq!(read_message(&mut cursor).unwrap(), Message::Okay("done".into()));
}

#[test]
fn unknown_type_tag_errors() {
    let buf = vec![0x01, 0x00, 0x00, 0x00, 0xFF]; // len=1, type=0xFF
    let mut cursor = ByteReader::new(buf);
    assert!(read_message(&mut cursor).is_err());
}

#[test]
fn exact_frame_bytes() {
    let mut buf = Vec::new();
    write_message(&mut buf, &Message::Query("hi".into())).unwrap();
    assert_eq!(buf, vec![3, 0, 0, 0, 0x01, b'h', b'i']);
    let mut buf = Vec::new();
    write_message(&mut buf, &Message::Rows { headers: vec!["a".into()], rows: vec![vec!["b".into()]] }).unwrap();
    assert_eq!(
        buf,
        vec![19, 0, 0, 0, 0x04, 1, 0, 0, 0, 1, 0, 0, 0, b'a', 1, 0, 0, 0, 1, 0, 0, 0, b'b']
    );
}

#[test]
fn unknown_type_message_and_position() {
    let mut cursor = ByteReader::new(vec![0x01, 0x00, 0x00, 0x00, 0xAB]);
    assert_eq!(
        read_message(&mut cursor),
        Err(ProtocolError::InvalidData("Unknown message type: 0xAB".to_string()))
    );
    assert_eq!(cursor.pos, 5);
}

#[test]
fn zero_length_frame_is_invalid() {
    let mut cursor = ByteReader::new(vec![0, 0, 0, 0, 1]);
    assert_eq!(
        read_message(&mut cursor),
        Err(ProtocolError::InvalidData("Frame length must be at least 1 (type byte)".to_string()))
    );
    assert_eq!(cursor.pos, 4);
}

#[test]
fn short_input_is_eof() {
    let mut cursor = ByteReader::new(vec![5, 0, 0]);
    assert_eq!(read_message(&mut cursor), Err(ProtocolError::UnexpectedEof));
    let mut cursor = ByteReader::new(vec![5, 0, 0, 0, 1, b'a']);
    assert_eq!(read_message(&mut cursor), Err(ProtocolError::UnexpectedEof));
    assert_eq!(cursor.pos, 6);
    let mut cursor = ByteReader::new(vec![]);
    assert_eq!(read_message(&mut cursor), Err(ProtocolError::UnexpectedEof));
}

#[test]
fn reader_advances_past_frame() {
    let mut buf = Vec::new();
    write_message(&mut buf, &Message::Error("e".into())).unwrap();
    buf.push(9);
    let mut cursor = ByteReader::new(buf);
    assert_eq!(read_message(&mut cursor), Ok(Message::Error("e".into())));
    assert_eq!(cursor.pos, 6);
}

#[test]
fn invalid_utf8_is_replaced() {
    let mut cursor = ByteReader::new(vec![3, 0, 0, 0, 0x02, b'a', 0xFF]);
    assert_eq!(read_message(&mut cursor), Ok(Message::Okay("a\u{FFFD}".into())));
}

#[test]
fn truncated_rows_payloads() {
    assert_eq!(decode_rows(&[1, 0]), Err("Truncated Rows payload (u32)".to_string()));
    assert_eq!(decode_rows(&[1, 0, 0, 0, 5, 0, 0, 0, b'a']), Err("Truncated Rows payload (string)".to_string()));
    assert_eq!(decode_rows(&[0, 0, 0, 0]), Err("Truncated Rows payload (u32)".to_string()));
    assert_eq!(
        decode_rows(&[0, 0, 0, 0, 0, 0, 0, 0, 99]),
        Ok(Message::Rows { headers: vec![], rows: vec![] })
    );
    let mut cursor = ByteReader::new(vec![2, 0, 0, 0, 0x04, 1]);
    assert_eq!(
        read_message(&mut cursor),
        Err(ProtocolError::InvalidData("Truncated Rows payload (u32)".to_string()))
    );
}
