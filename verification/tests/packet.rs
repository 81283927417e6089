use yave::network::{DecodeError, OnlinePlayer, Packet};
use yave::world::chunk::BlockGroup;

fn round_trip(p: Packet) {
    let bytes = p.encode();
    let decoded = Packet::decode(bytes).unwrap();
    assert_eq!(decoded, p);
}

#[test]
fn packet_round_trip_connection() {
    round_trip(Packet::Connection { user: String::from("steve") });
    // Boundary: the empty string.
    round_trip(Packet::Connection { user: String::new() });
    // A name containing multi-byte characters.
    round_trip(Packet::Connection { user: String::from("sn\u{f6}gubbe \u{2603}") });
}

#[test]
fn packet_round_trip_movement() {
    round_trip(Packet::Movement {
        delta_x: (1.5f64).to_bits(),
        delta_y: (-20.25f64).to_bits(),
        delta_z: (0.0f64).to_bits(),
    });
}

#[test]
fn packet_round_trip_position_request() {
    round_trip(Packet::PositionRequest { name: String::from("alex") });
    round_trip(Packet::PositionRequest { name: String::new() });
}

#[test]
fn packet_round_trip_player_position() {
    round_trip(Packet::PlayerPosition {
        x: (3.0f64).to_bits(),
        y: (64.5f64).to_bits(),
        z: (-12.0f64).to_bits(),
        name: String::from("steve"),
    });
}

#[test]
fn packet_round_trip_online_players() {
    // Boundary: an empty player list.
    round_trip(Packet::OnlinePlayers { players: Vec::new() });
    round_trip(Packet::OnlinePlayers {
        players: vec![
            OnlinePlayer {
                name: String::from("steve"),
                x: (1.0f32).to_bits(),
                y: (2.0f32).to_bits(),
                z: (3.0f32).to_bits(),
            },
            OnlinePlayer {
                name: String::new(),
                x: (-0.5f32).to_bits(),
                y: (0.0f32).to_bits(),
                z: (9000.25f32).to_bits(),
            },
        ],
    });
}

#[test]
fn packet_round_trip_unload_chunk() {
    round_trip(Packet::UnloadChunk { x: 0, y: 0 });
    round_trip(Packet::UnloadChunk { x: -1, y: i64::MIN });
    round_trip(Packet::UnloadChunk { x: i64::MAX, y: 17 });
}

#[test]
fn packet_round_trip_chunk() {
    // Boundary: no groups at all.
    round_trip(Packet::Chunk { x: 2, y: -1, groups: Vec::new() });
    round_trip(Packet::Chunk {
        x: 2,
        y: -1,
        groups: vec![
            BlockGroup { id: String::from("base:stone"), count: 4096 },
            BlockGroup { id: String::from("base:dirt"), count: 0 },
        ],
    });
}

#[test]
fn packet_unknown_tag_is_invalid() {
    assert_eq!(Packet::decode(vec![255u8]), Err(DecodeError::InvalidPacket));
    assert_eq!(Packet::decode(vec![7u8, 0, 0, 0]), Err(DecodeError::InvalidPacket));
}

#[test]
fn packet_truncated_buffer_is_an_error() {
    // A Connection packet that declares a 10-byte name but carries 3 bytes.
    let mut data = vec![0u8];
    data.extend_from_slice(&10u64.to_be_bytes());
    data.extend_from_slice(b"abc");
    assert_eq!(Packet::decode(data), Err(DecodeError::UnexpectedEnd));

    // The empty buffer has not even a tag.
    assert_eq!(Packet::decode(Vec::new()), Err(DecodeError::UnexpectedEnd));

    // A Movement packet missing its last coordinate.
    let mut m = vec![1u8];
    m.extend_from_slice(&0u64.to_be_bytes());
    m.extend_from_slice(&0u64.to_be_bytes());
    m.extend_from_slice(&[0u8; 4]);
    assert_eq!(Packet::decode(m), Err(DecodeError::UnexpectedEnd));
}

#[test]
fn packet_invalid_utf8_takes_sentinel() {
    // Tag 0, a 2-byte name of invalid UTF-8: the name falls back to the
    // sentinel instead of dropping the message.
    let mut data = vec![0u8];
    data.extend_from_slice(&2u64.to_be_bytes());
    data.extend_from_slice(&[0xff, 0xfe]);
    match Packet::decode(data).unwrap() {
        Packet::Connection { user } => assert_eq!(user, "invalid"),
        other => panic!("decoded the wrong variant: {:?}", other),
    }
}

#[test]
fn packet_wire_layout_is_exact() {
    let bytes = Packet::UnloadChunk { x: 1, y: -2 }.encode();
    let mut expected = vec![5u8];
    expected.extend_from_slice(&1i64.to_be_bytes());
    expected.extend_from_slice(&(-2i64).to_be_bytes());
    assert_eq!(bytes, expected);

    let bytes = Packet::Connection { user: String::from("ab") }.encode();
    let mut expected = vec![0u8];
    expected.extend_from_slice(&2u64.to_be_bytes());
    expected.extend_from_slice(b"ab");
    assert_eq!(bytes, expected);

    let bytes = Packet::Movement {
        delta_x: (1.0f64).to_bits(),
        delta_y: (2.0f64).to_bits(),
        delta_z: (-3.5f64).to_bits(),
    }
    .encode();
    let mut expected = vec![1u8];
    expected.extend_from_slice(&1.0f64.to_be_bytes());
    expected.extend_from_slice(&2.0f64.to_be_bytes());
    expected.extend_from_slice(&(-3.5f64).to_be_bytes());
    assert_eq!(bytes, expected);

    let bytes = Packet::Chunk {
        x: 2,
        y: -1,
        groups: vec![BlockGroup { id: String::from("base:stone"), count: 4096 }],
    }
    .encode();
    let mut expected = vec![6u8];
    expected.extend_from_slice(&2i64.to_be_bytes());
    expected.extend_from_slice(&(-1i64).to_be_bytes());
    expected.extend_from_slice(&1u64.to_be_bytes());
    expected.extend_from_slice(&10u64.to_be_bytes());
    expected.extend_from_slice(b"base:stone");
    expected.extend_from_slice(&4096u32.to_be_bytes());
    assert_eq!(bytes, expected);
}

#[test]
fn packet_ignores_trailing_bytes() {
    let mut bytes = Packet::UnloadChunk { x: 4, y: 4 }.encode();
    bytes.push(9u8);
    bytes.push(9u8);
    assert_eq!(Packet::decode(bytes).unwrap(), Packet::UnloadChunk { x: 4, y: 4 });
}
