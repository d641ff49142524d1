use isleworld::codec::{decode, encode, fits_wire};
use isleworld::msg::{
    channel_index, is_reliable, kind_of, settings_for, Chat, ChannelMode, EntEvent, Heartbeat,
    Message, Move, MsgKind, Pos, WorldJoin,
};
use isleworld::Art;

fn round_trip(m: Message) -> Message {
    assert!(fits_wire(&m));
    let bytes = encode(&m);
    decode(&bytes).expect("a fresh encoding must decode")
}

#[test]
fn round_trip_heartbeat() {
    match round_trip(Message::Heartbeat(Heartbeat)) {
        Message::Heartbeat(Heartbeat) => {}
        other => panic!("wrong kind: {:?}", other),
    }
}

#[test]
fn round_trip_chat() {
    let m = round_trip(Message::Chat(Chat(String::from("ahoy there \u{1F30A}"))));
    match m {
        Message::Chat(Chat(text)) => assert_eq!(text, "ahoy there \u{1F30A}"),
        other => panic!("wrong kind: {:?}", other),
    }
}

#[test]
fn round_trip_move() {
    let mv = Move { id: 0xDEAD_BEEF_0BAD_CAFE, tick: 4_000_000_000, pos: Pos { x: 7, y: u32::MAX } };
    match round_trip(Message::Move(mv)) {
        Message::Move(got) => assert_eq!(got, mv),
        other => panic!("wrong kind: {:?}", other),
    }
}

#[test]
fn round_trip_ent_events() {
    let spawn = EntEvent::Spawn(42, Pos { x: 1, y: 2 }, Art::Vase);
    match round_trip(Message::EntEvent(spawn)) {
        Message::EntEvent(got) => assert_eq!(got, spawn),
        other => panic!("wrong kind: {:?}", other),
    }
    let despawn = EntEvent::Despawn(u64::MAX);
    match round_trip(Message::EntEvent(despawn)) {
        Message::EntEvent(got) => assert_eq!(got, despawn),
        other => panic!("wrong kind: {:?}", other),
    }
}

#[test]
fn round_trip_world_join() {
    let join = WorldJoin {
        islands: vec![
            (1, Pos { x: 10, y: 20 }, Art::Island),
            (2, Pos { x: 30, y: 40 }, Art::Vase),
        ],
        your_island: 99,
        world_name: String::from("Starter World 0"),
        tick: 1234,
    };
    match round_trip(Message::WorldJoin(join)) {
        Message::WorldJoin(got) => {
            assert_eq!(got.islands.len(), 2);
            assert_eq!(got.islands[0], (1, Pos { x: 10, y: 20 }, Art::Island));
            assert_eq!(got.islands[1], (2, Pos { x: 30, y: 40 }, Art::Vase));
            assert_eq!(got.your_island, 99);
            assert_eq!(got.world_name, "Starter World 0");
            assert_eq!(got.tick, 1234);
        }
        other => panic!("wrong kind: {:?}", other),
    }
}

#[test]
fn move_encoding_is_little_endian() {
    let mv = Move { id: 0x0102_0304_0506_0708, tick: 0x0A0B_0C0D, pos: Pos { x: 1, y: 2 } };
    let bytes = encode(&Message::Move(mv));
    assert_eq!(
        bytes,
        vec![
            2, // kind tag
            0x08, 0x07, 0x06, 0x05, 0x04, 0x03, 0x02, 0x01, // id
            0x0D, 0x0C, 0x0B, 0x0A, // tick
            1, 0, 0, 0, // x
            2, 0, 0, 0, // y
        ]
    );
}

#[test]
fn decode_rejects_malformed_input() {
    assert!(decode(&[]).is_none());
    assert!(decode(&[9]).is_none(), "unknown kind tag");
    assert!(decode(&[2, 1, 2, 3]).is_none(), "truncated move");
    let mut ok = encode(&Message::Heartbeat(Heartbeat));
    ok.push(0);
    assert!(decode(&ok).is_none(), "trailing bytes");
    // A chat whose character is a surrogate code point never decodes.
    let bad_chat = vec![1, 1, 0, 0, 0, 0x00, 0xD8, 0, 0];
    assert!(decode(&bad_chat).is_none());
}

#[test]
fn kinds_map_to_distinct_channels() {
    let kinds = [
        MsgKind::Heartbeat,
        MsgKind::Chat,
        MsgKind::Move,
        MsgKind::EntEvent,
        MsgKind::WorldJoin,
    ];
    for (i, a) in kinds.iter().enumerate() {
        for b in kinds.iter().skip(i + 1) {
            assert_ne!(channel_index(*a), channel_index(*b));
        }
    }
    assert!(!is_reliable(MsgKind::Heartbeat));
    assert!(is_reliable(MsgKind::Chat));
    assert!(!is_reliable(MsgKind::Move));
    assert!(is_reliable(MsgKind::EntEvent));
    assert!(is_reliable(MsgKind::WorldJoin));
    for k in kinds {
        let s = settings_for(k);
        assert_eq!(s.channel, channel_index(k));
        assert_eq!(s.message_buffer_size, 8);
        assert_eq!(matches!(s.mode, ChannelMode::Reliable(_)), is_reliable(k));
    }
    assert_eq!(kind_of(&Message::Heartbeat(Heartbeat)), MsgKind::Heartbeat);
}
