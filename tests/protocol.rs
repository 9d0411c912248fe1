use side_run::geometry::Vec2;
use side_run::protocol::{
    encode_spawn_event, encode_update_pos_event, handshake_token, parse_event_type, parse_spawn_event,
    parse_update_pos_event, split_event, EventType, ProtocolError,
};

#[test]
fn event_tags() {
    assert_eq!(parse_event_type(b"SPWN "), Some(EventType::Spawn));
    assert_eq!(parse_event_type(b"UPDP "), Some(EventType::UpdatePos));
    assert_eq!(parse_event_type(b"XXXX "), None);
    assert_eq!(parse_event_type(b"SP"), None);
}

#[test]
fn packet_splits_after_tag() {
    let mut buf = b"UPDP 3|1x2\r\n".to_vec();
    buf.resize(64, 0);
    let (e, data) = split_event(&buf).unwrap();
    assert_eq!(e, EventType::UpdatePos);
    assert_eq!(data.len(), 59);
    assert_eq!(parse_update_pos_event(&data), Ok((3, Vec2::new(1000, 2000))));
    assert!(split_event(b"UPDP").is_none());
    assert!(split_event(b"HELO 1").is_none());
}

#[test]
fn update_position_event() {
    assert_eq!(parse_update_pos_event(b"12|400x300\r\n"), Ok((12, Vec2::new(400_000, 300_000))));
    assert_eq!(parse_update_pos_event(b" 7|-12.5x0.125 \r\nrest"), Ok((7, Vec2::new(-12_500, 125))));
    assert_eq!(parse_update_pos_event(b"7|1.23456x+.5"), Ok((7, Vec2::new(1_234, 500))));
}

#[test]
fn update_position_errors() {
    assert_eq!(parse_update_pos_event(b"abc|1x2"), Err(ProtocolError::BadNumber));
    assert_eq!(parse_update_pos_event(b"5"), Err(ProtocolError::MissingField));
    assert_eq!(parse_update_pos_event(b"5|1"), Err(ProtocolError::MissingField));
    assert_eq!(parse_update_pos_event(b"5|1xq"), Err(ProtocolError::BadNumber));
    assert_eq!(parse_update_pos_event(b"5|.x1"), Err(ProtocolError::BadNumber));
    assert_eq!(parse_update_pos_event(b"5|99999999999x1"), Err(ProtocolError::OutOfRange));
    assert_eq!(parse_update_pos_event(b"99999999999999999999|1x1"), Err(ProtocolError::OutOfRange));
}

#[test]
fn spawn_event() {
    let r = parse_spawn_event(b"3|Fridge|400x300|4278190335\r\n");
    assert_eq!(r, Ok((3, b"Fridge".to_vec(), Vec2::new(400_000, 300_000), 0xFF00_00FF)));
    assert_eq!(parse_spawn_event(b"3|Fridge|400x300"), Err(ProtocolError::MissingField));
    assert_eq!(parse_spawn_event(b"3|Fridge"), Err(ProtocolError::MissingField));
    assert_eq!(parse_spawn_event(b"3|Fridge|1x1|4294967296"), Err(ProtocolError::OutOfRange));
    assert_eq!(parse_spawn_event(b"3|Fridge|1x1|red"), Err(ProtocolError::BadNumber));
}

#[test]
fn messages_are_written_in_pixels() {
    assert_eq!(encode_update_pos_event(12, &Vec2::new(400_000, 300_000)), b"UPDP 12|400x300\r\n".to_vec());
    assert_eq!(encode_update_pos_event(0, &Vec2::new(-12_500, 125)), b"UPDP 0|-12.5x0.125\r\n".to_vec());
    assert_eq!(encode_update_pos_event(1, &Vec2::new(7, -30)), b"UPDP 1|0.007x-0.03\r\n".to_vec());
    assert_eq!(
        encode_spawn_event(3, b"Fridge", &Vec2::new(400_000, 300_000), 0xFF00_00FF),
        b"SPWN 3|Fridge|400x300|4278190335\r\n".to_vec()
    );
}

#[test]
fn written_messages_read_back() {
    let pos = Vec2::new(-123_456, 789);
    let msg = encode_update_pos_event(99, &pos);
    let (e, data) = split_event(&msg).unwrap();
    assert_eq!(e, EventType::UpdatePos);
    assert_eq!(parse_update_pos_event(&data), Ok((99, pos)));
    let msg = encode_spawn_event(5, b"Ann", &pos, 0x1234_5678);
    let (e, data) = split_event(&msg).unwrap();
    assert_eq!(e, EventType::Spawn);
    assert_eq!(parse_spawn_event(&data), Ok((5, b"Ann".to_vec(), pos, 0x1234_5678)));
}

#[test]
fn handshake_reads_big_endian_token() {
    assert_eq!(handshake_token(&[0, 0, 0, 0, 0, 0, 1, 2]), Some(258));
    assert_eq!(handshake_token(&[1, 0, 0, 0, 0, 0, 0, 0, 9]), Some(1 << 56));
    assert_eq!(handshake_token(&[1, 2, 3]), None);
}
