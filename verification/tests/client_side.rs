use isleworld::channel::ChannelSet;
use isleworld::client::{ChatBox, Clock, Ents, Heart, MAX_MESSAGES, TICK_US};
use isleworld::interp::{Ent, PosLerp, FRAMES_SAVED};
use isleworld::msg::{Chat, EntEvent, Message, Move, Pos};
use isleworld::Art;

fn p(x: u32, y: u32) -> Pos {
    Pos { x, y }
}

fn frames_of(e: &Ent) -> Vec<u32> {
    e.pos_frames.iter().map(|&(t, _)| t).collect()
}

#[test]
fn increasing_ticks_keep_strictly_decreasing_order() {
    let mut e = Ent::new(p(0, 0), Art::Island);
    for tick in [3u32, 5, 6, 9, 12, 20, 21] {
        e.push_sample(tick, p(tick, tick));
    }
    let ticks = frames_of(&e);
    assert!(ticks.len() <= FRAMES_SAVED);
    for w in ticks.windows(2) {
        assert!(w[0] > w[1], "ticks must strictly decrease: {:?}", ticks);
    }
    assert_eq!(ticks, vec![21, 20, 12, 9, 6]);
}

#[test]
fn stale_or_duplicate_sample_is_a_no_op() {
    let mut e = Ent::new(p(0, 0), Art::Island);
    e.push_sample(10, p(1, 1));
    e.push_sample(8, p(2, 2));
    let before = e.pos_frames.clone();
    e.push_sample(10, p(9, 9)); // duplicate newest tick
    assert_eq!(e.pos_frames, before);
    e.push_sample(3, p(9, 9)); // older than newest
    assert_eq!(e.pos_frames, before);
}

#[test]
fn bracketing_pair_at_half_ratio() {
    // Samples at ticks 10, 8, 6, 4, 2; target simulation tick is 7.
    let mut e = Ent::new(p(0, 0), Art::Island);
    for tick in [2u32, 4, 6, 8, 10] {
        e.push_sample(tick, p(tick * 100, 0));
    }
    assert_eq!(frames_of(&e), vec![10, 8, 6, 4, 2]);
    // The local clock reads tick 9; rendering lags two ticks behind.
    match e.pos_lerp(9) {
        PosLerp::Between { newer, older, elapsed, span } => {
            assert_eq!(newer.0, 8);
            assert_eq!(older.0, 6);
            assert_eq!(elapsed, 1);
            assert_eq!(span, 2);
            // Blend the positions as a renderer would, at zero fractional
            // progress: the ratio is (8-7)/(8-6) = 0.5.
            let ratio = (elapsed as f32 + 0.0) / span as f32;
            assert_eq!(ratio, 0.5);
            let x0 = older.1.x as f32;
            let x1 = newer.1.x as f32;
            assert_eq!(x0 + (x1 - x0) * ratio, 700.0);
        }
        other => panic!("expected a bracketing pair, got {:?}", other),
    }
}

#[test]
fn single_sample_returned_verbatim() {
    let e = Ent::new(p(123, 456), Art::Vase);
    match e.pos_lerp(50) {
        PosLerp::Newest(pos) => assert_eq!(pos, p(123, 456)),
        other => panic!("expected the one sample back, got {:?}", other),
    }
    // A target older than every sample also falls back to the newest.
    let mut e2 = Ent::new(p(1, 1), Art::Vase);
    e2.push_sample(90, p(2, 2));
    e2.push_sample(95, p(3, 3));
    e2.pos_frames.remove(2); // drop the spawn sample, leaving 95, 90
    match e2.pos_lerp(4) {
        PosLerp::Newest(pos) => assert_eq!(pos, p(3, 3)),
        other => panic!("expected newest fallback, got {:?}", other),
    }
}

#[test]
fn ents_follow_spawn_despawn_and_moves() {
    let mut ents = Ents::new(vec![
        (1, p(0, 0), Art::Island),
        (2, p(5, 5), Art::Vase),
    ]);
    assert_eq!(ents.ents.len(), 2);

    let mut ch = ChannelSet::new();
    ch.push_incoming(Message::EntEvent(EntEvent::Spawn(3, p(7, 7), Art::Island)));
    ch.push_incoming(Message::EntEvent(EntEvent::Despawn(2)));
    ch.push_incoming(Message::Move(Move { id: 1, tick: 4, pos: p(9, 9) }));
    ch.push_incoming(Message::Move(Move { id: 77, tick: 4, pos: p(1, 1) }));
    ents.poll_messages(&mut ch);

    assert!(ch.in_ent.is_empty());
    assert!(ch.in_move.is_empty());
    let ids: Vec<u64> = ents.ents.iter().map(|&(id, _)| id).collect();
    assert!(ids.contains(&1));
    assert!(ids.contains(&3));
    assert!(!ids.contains(&2));
    assert!(!ids.contains(&77), "a move for an unknown id spawns nothing");
    let one = &ents.ents.iter().find(|&&(id, _)| id == 1).unwrap().1;
    assert_eq!(one.pos_frames[0], (4, p(9, 9)));
}

#[test]
fn clock_advances_by_whole_ticks() {
    let mut c = Clock::new(100);
    let (t, rem) = c.tick(TICK_US * 3 + 10);
    assert_eq!(t, 103);
    assert_eq!(rem, 10);
    let (t2, rem2) = c.tick(TICK_US - 10);
    assert_eq!(t2, 104);
    assert_eq!(rem2, 0);
}

#[test]
fn clock_steps_match_one_big_step() {
    // Stepping a clock a hundred times by one tick's worth of time lands
    // exactly where one hundred-tick step lands.
    let mut stepped = Clock::new(100);
    for _ in 0..100 {
        stepped.tick(TICK_US);
    }
    let mut one_shot = Clock::new(100);
    one_shot.tick(TICK_US * 100);
    assert_eq!(stepped, one_shot);
    assert_eq!(stepped.tick, 200);
}

#[test]
fn heart_beats_on_the_interval() {
    let mut h = Heart::new(5000);
    let mut ch = ChannelSet::new();
    h.beat(&mut ch, 5000); // due immediately: last beat is backdated
    assert_eq!(ch.out_heartbeat.len(), 1);
    h.beat(&mut ch, 5100); // only 100ms later: not due
    assert_eq!(ch.out_heartbeat.len(), 1);
    h.beat(&mut ch, 5300); // 300ms after the first beat: due
    assert_eq!(ch.out_heartbeat.len(), 2);
}

#[test]
fn chat_box_logs_and_wraps() {
    let mut cb = ChatBox::new();
    assert_eq!(cb.history.len(), MAX_MESSAGES);
    assert_eq!(cb.pen, 1);
    cb.log_message(String::from("first"));
    assert_eq!(cb.history[1], "first");
    assert_eq!(cb.pen, 2);
    cb.pen = MAX_MESSAGES - 1;
    cb.log_message(String::from("wrapping"));
    assert_eq!(cb.pen, 0);
    assert_eq!(cb.history[MAX_MESSAGES - 1], "wrapping");
}

#[test]
fn chat_box_sync_logs_incoming_and_sends_prepared_line() {
    let mut cb = ChatBox::new();
    let mut ch = ChannelSet::new();
    ch.push_incoming(Message::Chat(Chat(String::from("hello"))));
    cb.wip_message = String::from("my reply");
    cb.send_wip = true;
    cb.sync_messages(&mut ch);
    assert_eq!(cb.history[1], "hello");
    assert!(!cb.send_wip);
    assert!(cb.wip_message.is_empty());
    assert_eq!(ch.out_chat.len(), 1);
    match &ch.out_chat[0] {
        Message::Chat(Chat(text)) => assert_eq!(text, "my reply"),
        other => panic!("wrong kind queued: {:?}", other),
    }
}

#[test]
fn snapshot_table_takes_the_last_tuple_per_id() {
    let ents = Ents::new(vec![
        (7, p(1, 1), Art::Island),
        (8, p(2, 2), Art::Vase),
        (7, p(3, 3), Art::Vase),
    ]);
    assert_eq!(ents.ents.len(), 2);
    let seven = &ents.ents.iter().find(|&&(id, _)| id == 7).unwrap().1;
    assert_eq!(seven.pos_frames, vec![(0, p(3, 3))]);
    assert_eq!(seven.art, Art::Vase);
    let eight = &ents.ents.iter().find(|&&(id, _)| id == 8).unwrap().1;
    assert_eq!(eight.pos_frames, vec![(0, p(2, 2))]);
}

#[test]
fn polled_moves_respect_ring_order_and_staleness() {
    let mut ents = Ents::new(vec![(1, p(0, 0), Art::Island)]);
    let mut ch = ChannelSet::new();
    for (tick, x) in [(5u32, 10u32), (7, 20), (6, 30), (7, 40), (9, 50)] {
        ch.push_incoming(Message::Move(Move { id: 1, tick, pos: p(x, 0) }));
    }
    ents.poll_messages(&mut ch);
    let one = &ents.ents.iter().find(|&&(id, _)| id == 1).unwrap().1;
    // Only the strictly increasing samples were taken, newest first; the
    // stale ticks 6 and the duplicate 7 changed nothing.
    assert_eq!(one.pos_frames, vec![(9, p(50, 0)), (7, p(20, 0)), (5, p(10, 0)), (0, p(0, 0))]);
}

#[test]
fn chat_box_sync_logs_lines_in_arrival_order() {
    let mut cb = ChatBox::new();
    let mut ch = ChannelSet::new();
    for line in ["one", "two", "three"] {
        ch.push_incoming(Message::Chat(Chat(String::from(line))));
    }
    cb.sync_messages(&mut ch);
    assert_eq!(cb.history[1], "one");
    assert_eq!(cb.history[2], "two");
    assert_eq!(cb.history[3], "three");
    assert_eq!(cb.pen, 4);
    assert!(ch.out_chat.is_empty(), "nothing was marked ready to send");
}
