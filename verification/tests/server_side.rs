use isleworld::channel::{ChannelSet, SendError};
use isleworld::msg::{Chat, EntEvent, Message, Move, Pos, WorldJoin};
use isleworld::world::{
    prepare_starter, world_name_for, ChatDispatcher, Ecs, EcsError, EntityId, PlayerIsland,
    Session, StarterWorlds, World, HEARTBEAT_TIMEOUT_MS,
};
use isleworld::msg::Heartbeat;
use isleworld::client::Ents;
use isleworld::codec::{decode, encode};
use isleworld::Art;

fn p(x: u32, y: u32) -> Pos {
    Pos { x, y }
}

fn session(addr: u64, now: u64) -> Session {
    Session::new(ChannelSet::new(), addr, now)
}

fn spawn_count(ch: &ChannelSet) -> usize {
    ch.out_ent
        .iter()
        .filter(|m| matches!(m, Message::EntEvent(EntEvent::Spawn(..))))
        .count()
}

fn despawns_of(ch: &ChannelSet, id: u64) -> usize {
    ch.out_ent
        .iter()
        .filter(|m| matches!(m, Message::EntEvent(EntEvent::Despawn(got)) if *got == id))
        .count()
}

#[test]
fn join_notifies_existing_peers_and_only_them() {
    let mut w = World::new(String::from("test shard"));
    w.ecs.spawn_decoration(p(1, 1), Art::Vase);
    let first = w.connect(PlayerIsland::new(p(0, 0), session(10, 0)));
    let second = w.connect(PlayerIsland::new(p(2, 2), session(11, 0)));
    assert_ne!(first, second);

    // The first peer heard of exactly one spawn: the second peer's.
    let first_slot = &w.ecs.slots[first.index as usize];
    let first_ch = &first_slot.data.as_ref().unwrap().session.as_ref().unwrap().channel;
    assert_eq!(spawn_count(first_ch), 1);
    // The first peer's join snapshot listed one entity: the decoration.
    match first_ch.out_join.as_slice() {
        [Message::WorldJoin(WorldJoin { islands, your_island, world_name, tick })] => {
            assert_eq!(islands.len(), 1);
            assert_eq!(islands[0].1, p(1, 1));
            assert_eq!(islands[0].2, Art::Vase);
            assert_eq!(*your_island, first.to_bits());
            assert_eq!(world_name, "test shard");
            assert_eq!(*tick, 0);
        }
        other => panic!("expected exactly one join snapshot, got {:?}", other),
    }

    // The joiner heard of nobody's spawn, including its own, and its
    // snapshot lists both prior entities.
    let second_slot = &w.ecs.slots[second.index as usize];
    let second_ch = &second_slot.data.as_ref().unwrap().session.as_ref().unwrap().channel;
    assert_eq!(spawn_count(second_ch), 0);
    match second_ch.out_join.as_slice() {
        [Message::WorldJoin(WorldJoin { islands, .. })] => assert_eq!(islands.len(), 2),
        other => panic!("expected exactly one join snapshot, got {:?}", other),
    }
}

#[test]
fn delta_updates_only_for_moved_entities() {
    let mut w = World::new(String::from("delta"));
    let a = w.ecs.spawn_decoration(p(1, 1), Art::Vase);
    let b = w.ecs.spawn_decoration(p(2, 2), Art::Island);
    let mut chat = ChatDispatcher::new();

    // First tick: both entities are fresh, so no position was ever
    // broadcast from here and no move message goes out.
    w.update(&chat, 0);
    assert_eq!(w.tick, 1);
    assert_eq!(w.last_pos_tracker.messages.len(), 0);

    // Move one entity; only it is reported, exactly once.
    w.ecs.slots[a.index as usize].data.as_mut().unwrap().pos = p(50, 60);
    w.update(&chat, 50);
    let msgs: &Vec<Move> = &w.last_pos_tracker.messages;
    assert_eq!(msgs.len(), 1);
    assert_eq!(msgs[0].id, a.to_bits());
    assert_eq!(msgs[0].tick, 2);
    assert_eq!(msgs[0].pos, p(50, 60));
    assert_ne!(msgs[0].id, b.to_bits());

    // Nothing moved since: no traffic at all.
    w.update(&chat, 100);
    assert_eq!(w.last_pos_tracker.messages.len(), 0);
}

#[test]
fn silent_session_is_removed_and_announced_once() {
    let mut w = World::new(String::from("timeouts"));
    let stays = w.connect(PlayerIsland::new(p(0, 0), session(1, 0)));
    let goes = w.connect(PlayerIsland::new(p(5, 5), session(2, 0)));
    let mut chat = ChatDispatcher::new();

    // The surviving peer heartbeats; the other stays silent.
    w.ecs.slots[stays.index as usize]
        .data
        .as_mut()
        .unwrap()
        .session
        .as_mut()
        .unwrap()
        .channel
        .push_incoming(Message::Heartbeat(Heartbeat));
    let now = HEARTBEAT_TIMEOUT_MS + 1;
    w.update(&chat, now);

    assert!(w.ecs.slots[goes.index as usize].data.is_none(), "timed out peer removed");
    assert!(w.ecs.slots[stays.index as usize].data.is_some());
    let stay_ch = &w.ecs.slots[stays.index as usize]
        .data
        .as_ref()
        .unwrap()
        .session
        .as_ref()
        .unwrap()
        .channel;
    assert_eq!(despawns_of(stay_ch, goes.to_bits()), 1);

    // A second tick announces nothing further about the departed peer.
    w.ecs.slots[stays.index as usize]
        .data
        .as_mut()
        .unwrap()
        .session
        .as_mut()
        .unwrap()
        .channel
        .push_incoming(Message::Heartbeat(Heartbeat));
    w.update(&chat, now + 50);
    let stay_ch = &w.ecs.slots[stays.index as usize]
        .data
        .as_ref()
        .unwrap()
        .session
        .as_ref()
        .unwrap()
        .channel;
    assert_eq!(despawns_of(stay_ch, goes.to_bits()), 1);
}

#[test]
fn despawned_slot_never_reuses_the_old_id() {
    let mut w = World::new(String::from("generations"));
    let old_id = w.connect(PlayerIsland::new(p(0, 0), session(1, 0)));
    let mut chat = ChatDispatcher::new();
    w.update(&chat, HEARTBEAT_TIMEOUT_MS + 1); // times out, slot vacated
    let new_id = w.connect(PlayerIsland::new(p(0, 0), session(2, 0)));
    assert_eq!(new_id.index, old_id.index, "the slot itself is recycled");
    assert_ne!(new_id.to_bits(), old_id.to_bits(), "the handle is not");
}

#[test]
fn recycled_shard_matches_fresh_layout() {
    let layout = |w: &World| -> Vec<(Pos, Art)> {
        w.ecs
            .slots
            .iter()
            .filter_map(|s| s.data.as_ref().map(|e| (e.pos, e.art)))
            .collect()
    };

    let mut fresh = World::new(String::from("fresh"));
    prepare_starter(&mut fresh);

    let mut used = World::new(String::from("used"));
    prepare_starter(&mut used);
    let id = used.connect(PlayerIsland::new(p(9, 9), session(7, 0)));
    used.ecs.slots[id.index as usize].data.as_mut().unwrap().pos = p(77, 88);
    let mut chat = ChatDispatcher::new();
    used.update(&chat, HEARTBEAT_TIMEOUT_MS + 1); // peer times out
    prepare_starter(&mut used); // recycled for the next peer

    assert_eq!(layout(&fresh), layout(&used));
}

#[test]
fn chat_fans_out_to_every_peer_in_the_shard() {
    let mut w = World::new(String::from("chatty"));
    let a = w.connect(PlayerIsland::new(p(0, 0), session(1, 0)));
    let b = w.connect(PlayerIsland::new(p(1, 1), session(2, 0)));
    w.ecs.slots[a.index as usize]
        .data
        .as_mut()
        .unwrap()
        .session
        .as_mut()
        .unwrap()
        .channel
        .push_incoming(Message::Chat(Chat(String::from("ahoy"))));
    let mut chat = ChatDispatcher::new();
    chat.fill(&mut w.ecs);
    assert_eq!(chat.frame.len(), 1);

    let count_chats = |ch: &ChannelSet| {
        ch.out_chat
            .iter()
            .filter(|m| matches!(m, Message::Chat(Chat(t)) if t == "ahoy"))
            .count()
    };
    for id in [a, b] {
        let sess = w.ecs.slots[id.index as usize].data.as_mut().unwrap().session.as_mut().unwrap();
        chat.sync(sess);
        assert_eq!(count_chats(&sess.channel), 1, "every peer, sender included, gets the line");
    }
}

#[test]
fn reliable_send_reports_rejections() {
    let mut ch = ChannelSet::new();
    let big = Message::Chat(Chat("x".repeat(2000)));
    assert_eq!(ch.send(big), Err(SendError::TooLarge));
    for i in 0..8 {
        let m = Message::Chat(Chat(format!("line {}", i)));
        assert_eq!(ch.send(m), Ok(()));
    }
    assert_eq!(
        ch.send(Message::Chat(Chat(String::from("overflow")))),
        Err(SendError::BufferFull)
    );
    ch.tear_down();
    assert_eq!(
        ch.send(Message::Chat(Chat(String::from("late")))),
        Err(SendError::TornDown)
    );
}

#[test]
fn unreliable_send_drops_the_oldest() {
    let mut ch = ChannelSet::new();
    for tick in 0..9u32 {
        ch.send(Message::Move(Move { id: 1, tick, pos: p(0, 0) })).unwrap();
    }
    assert_eq!(ch.out_move.len(), 8, "bounded, never blocking");
    match &ch.out_move[0] {
        Message::Move(m) => assert_eq!(m.tick, 1, "the oldest message was evicted"),
        other => panic!("wrong kind: {:?}", other),
    }
    let flushed = ch.flush_all();
    assert_eq!(flushed.len(), 8);
    assert!(ch.out_move.is_empty());
}

#[test]
fn pool_recycles_quiet_shards() {
    let mut pool = StarterWorlds::new();
    let first = pool.connect(session(1, 0));
    assert_eq!(first, 0);
    assert_eq!(pool.worlds.len(), 1);
    assert_eq!(pool.worlds[0].name, "Starter World 0");

    // A second concurrent peer needs a second shard.
    let second = pool.connect(session(2, 0));
    assert_eq!(second, 1);
    assert_eq!(pool.worlds.len(), 2);
    assert_eq!(pool.worlds[1].name, "Starter World 1");

    // Everyone times out; the next peer reuses a shard instead of growing
    // the pool.
    let mut chat = ChatDispatcher::new();
    pool.update(&mut chat, HEARTBEAT_TIMEOUT_MS + 1);
    let third = pool.connect(session(3, HEARTBEAT_TIMEOUT_MS + 1));
    assert_eq!(third, 0);
    assert_eq!(pool.worlds.len(), 2);
}

#[test]
fn world_names_carry_decimal_indices() {
    assert_eq!(world_name_for(0), "Starter World 0");
    assert_eq!(world_name_for(7), "Starter World 7");
    assert_eq!(world_name_for(10), "Starter World 10");
    assert_eq!(world_name_for(345), "Starter World 345");
}

#[test]
fn session_heartbeat_tracks_liveness() {
    let mut s = session(5, 1000);
    assert!(!s.heartbeat(1000 + HEARTBEAT_TIMEOUT_MS));
    assert!(s.heartbeat(1001 + HEARTBEAT_TIMEOUT_MS));
    s.channel.push_incoming(Message::Heartbeat(Heartbeat));
    assert!(!s.heartbeat(1001 + HEARTBEAT_TIMEOUT_MS), "a pending heartbeat revives the peer");
    assert_eq!(s.heartbeat, 1001 + HEARTBEAT_TIMEOUT_MS);
}

#[test]
fn remove_island_reports_missing_entities() {
    let mut ecs = Ecs::new();
    let decoration = ecs.spawn_decoration(p(0, 0), Art::Vase);
    assert!(matches!(
        ecs.remove_island(EntityId { index: 9, generation: 0 }),
        Err(EcsError::NoSuchEntity)
    ));
    assert!(matches!(ecs.remove_island(decoration), Err(EcsError::MissingComponent)));
    let player = ecs.add_island(PlayerIsland::new(p(1, 1), session(1, 0)));
    let got = ecs.remove_island(player).expect("a live player can be removed");
    assert_eq!(got.pos, p(1, 1));
    assert!(
        matches!(ecs.remove_island(player), Err(EcsError::NoSuchEntity)),
        "a vacated generation never resolves again"
    );
}

#[test]
fn replicated_state_reaches_a_client_through_the_codec() {
    let mut w = World::new(String::from("end to end"));
    let a = w.connect(PlayerIsland::new(p(0, 0), session(1, 0)));
    let b = w.connect(PlayerIsland::new(p(5, 5), session(2, 0)));

    // Everything queued for the first peer crosses a real encode/decode
    // boundary before the client sees it.
    let mut client_ch = ChannelSet::new();
    let mut ents: Option<Ents> = None;
    let sess =
        w.ecs.slots[a.index as usize].data.as_mut().unwrap().session.as_mut().unwrap();
    for m in sess.channel.flush_all() {
        let got = decode(&encode(&m)).expect("server traffic must decode");
        match got {
            Message::WorldJoin(j) => ents = Some(Ents::new(j.islands)),
            other => client_ch.push_incoming(other),
        }
    }
    let mut ents = ents.expect("the joiner receives a snapshot");
    assert_eq!(ents.ents.len(), 0, "the shard was empty when the first peer joined");
    ents.poll_messages(&mut client_ch);
    assert!(
        ents.ents.iter().any(|&(id, _)| id == b.to_bits()),
        "the second peer's spawn reached the first peer's client"
    );

    // A position change becomes a move message that lands in the client's
    // interpolation buffer under the server's tick stamp. The first tick
    // only records the baseline positions; the change lands on the next.
    let chat = ChatDispatcher::new();
    w.update(&chat, 0);
    w.ecs.slots[b.index as usize].data.as_mut().unwrap().pos = p(70, 80);
    w.update(&chat, 0);
    let sess =
        w.ecs.slots[a.index as usize].data.as_mut().unwrap().session.as_mut().unwrap();
    for m in sess.channel.flush_all() {
        let got = decode(&encode(&m)).expect("server traffic must decode");
        client_ch.push_incoming(got);
    }
    ents.poll_messages(&mut client_ch);
    let b_ent = &ents.ents.iter().find(|&&(id, _)| id == b.to_bits()).unwrap().1;
    assert_eq!(b_ent.pos_frames[0], (2, p(70, 80)));
}

#[test]
fn joined_shard_starts_from_the_seed_layout() {
    let layout = |w: &World| -> Vec<(Pos, Art)> {
        w.ecs
            .slots
            .iter()
            .filter_map(|s| s.data.as_ref().map(|e| (e.pos, e.art)))
            .collect()
    };
    let mut pool = StarterWorlds::new();
    let shard = pool.connect(session(1, 0));
    assert_eq!(
        layout(&pool.worlds[shard]),
        vec![
            (Pos { x: isleworld::world::UNIT_COORD_BITS, y: isleworld::world::UNIT_COORD_BITS },
             Art::Vase),
            (p(0, 0), Art::Island),
        ],
        "seed decorations first, then the joiner's island"
    );

    // The peer times out; a reconnecting peer finds the identical start.
    let mut chat = ChatDispatcher::new();
    pool.update(&mut chat, HEARTBEAT_TIMEOUT_MS + 1);
    let again = pool.connect(session(2, HEARTBEAT_TIMEOUT_MS + 1));
    assert_eq!(again, shard);
    assert_eq!(layout(&pool.worlds[shard]).len(), 2);
    assert_eq!(layout(&pool.worlds[shard])[0].1, Art::Vase);
}
