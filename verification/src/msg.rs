//! The fixed set of typed messages exchanged between server and client, and
//! the static configuration binding each message kind to one logical channel
//! with one delivery mode.
//!
//! Positions travel as [`Pos`], a pair of raw 32-bit coordinate encodings:
//! the core never does coordinate arithmetic, it only stores, compares and
//! forwards positions, so the raw encoding is all it needs.
use vstd::prelude::*;
use crate::Art;

verus! {

/// A 2D position, each coordinate held as its raw 32-bit wire encoding.
#[derive(Clone, Copy, Debug, PartialEq, Eq, Structural)]
pub struct Pos {
    pub x: u32,
    pub y: u32,
}

/// Periodic keepalive; carries no data.
#[derive(Clone, Copy, Debug, PartialEq, Eq, Structural)]
pub struct Heartbeat;

/// A line of chat text.
#[derive(Clone, Debug)]
pub struct Chat(pub String);

/// A delta position update: entity `id` stood at `pos` on server tick `tick`.
#[derive(Clone, Copy, Debug, PartialEq, Eq, Structural)]
pub struct Move {
    pub id: u64,
    pub tick: u32,
    pub pos: Pos,
}

/// An entity lifecycle event broadcast to connected peers.
#[derive(Clone, Copy, Debug, PartialEq, Eq, Structural)]
pub enum EntEvent {
    Spawn(u64, Pos, Art),
    Despawn(u64),
}

/// The one-time snapshot a peer receives on joining a world shard.
#[derive(Clone, Debug)]
pub struct WorldJoin {
    pub islands: Vec<(u64, Pos, Art)>,
    pub your_island: u64,
    pub world_name: String,
    pub tick: u32,
}

/// Any message of the wire protocol, tagged by kind.
#[derive(Clone, Debug)]
pub enum Message {
    Heartbeat(Heartbeat),
    Chat(Chat),
    Move(Move),
    EntEvent(EntEvent),
    WorldJoin(WorldJoin),
}

/// The mathematical value of a [`Message`]: strings and lists abstracted to
/// sequences, everything else plain.
pub enum MsgView {
    Heartbeat,
    Chat(Seq<char>),
    Move(Move),
    EntEvent(EntEvent),
    WorldJoin(Seq<(u64, Pos, Art)>, u64, Seq<char>, u32),
}

impl View for Chat {
    type V = Seq<char>;

    open spec fn view(&self) -> Seq<char> {
        self.0@
    }
}

impl View for Message {
    type V = MsgView;

    open spec fn view(&self) -> MsgView {
        match self {
            Message::Heartbeat(_) => MsgView::Heartbeat,
            Message::Chat(c) => MsgView::Chat(c.0@),
            Message::Move(m) => MsgView::Move(*m),
            Message::EntEvent(e) => MsgView::EntEvent(*e),
            Message::WorldJoin(w) => MsgView::WorldJoin(
                w.islands@,
                w.your_island,
                w.world_name@,
                w.tick,
            ),
        }
    }
}

/// The kind of a message, naming its logical channel.
#[derive(Clone, Copy, Debug, PartialEq, Eq, Structural)]
pub enum MsgKind {
    Heartbeat,
    Chat,
    Move,
    EntEvent,
    WorldJoin,
}

/// The kind a message value belongs to.
pub open spec fn spec_view_kind(v: MsgView) -> MsgKind {
    match v {
        MsgView::Heartbeat => MsgKind::Heartbeat,
        MsgView::Chat(_) => MsgKind::Chat,
        MsgView::Move(_) => MsgKind::Move,
        MsgView::EntEvent(_) => MsgKind::EntEvent,
        MsgView::WorldJoin(_, _, _, _) => MsgKind::WorldJoin,
    }
}

/// The kind a given message belongs to.
pub open spec fn spec_kind_of(m: Message) -> MsgKind {
    match m {
        Message::Heartbeat(_) => MsgKind::Heartbeat,
        Message::Chat(_) => MsgKind::Chat,
        Message::Move(_) => MsgKind::Move,
        Message::EntEvent(_) => MsgKind::EntEvent,
        Message::WorldJoin(_) => MsgKind::WorldJoin,
    }
}

/// Returns the kind tag of a message.
pub fn kind_of(m: &Message) -> (k: MsgKind)
    ensures
        k == spec_kind_of(*m),
{
    match m {
        Message::Heartbeat(_) => MsgKind::Heartbeat,
        Message::Chat(_) => MsgKind::Chat,
        Message::Move(_) => MsgKind::Move,
        Message::EntEvent(_) => MsgKind::EntEvent,
        Message::WorldJoin(_) => MsgKind::WorldJoin,
    }
}

/// Largest encoded message a reliable channel accepts, in bytes.
pub const MAX_MESSAGE_LEN: usize = 1024;

/// How many queued messages each channel holds before it is full.
pub const MESSAGE_BUFFER_SIZE: usize = 8;

/// Tuning parameters of a reliable-ordered channel. Times are milliseconds;
/// the two smoothing factors are stated per mille, so `100` means one tenth.
#[derive(Clone, Copy, Debug, PartialEq, Eq, Structural)]
pub struct ReliableSettings {
    pub bandwidth: u32,
    pub recv_window_size: u32,
    pub send_window_size: u32,
    pub burst_bandwidth: u32,
    pub init_send: u32,
    pub wakeup_time_ms: u32,
    pub initial_rtt_ms: u32,
    pub max_rtt_ms: u32,
    pub rtt_update_factor_permille: u32,
    pub rtt_resend_factor_permille: u32,
    pub max_message_len: u32,
}

/// The delivery contract of one logical channel.
#[derive(Clone, Copy, Debug, PartialEq, Eq, Structural)]
pub enum ChannelMode {
    Unreliable,
    Reliable(ReliableSettings),
}

/// The full static configuration of one logical channel.
#[derive(Clone, Copy, Debug, PartialEq, Eq, Structural)]
pub struct ChannelSettings {
    pub channel: u8,
    pub mode: ChannelMode,
    pub message_buffer_size: usize,
    pub packet_buffer_size: usize,
}

/// The channel index each message kind is statically bound to.
pub open spec fn spec_channel_index(k: MsgKind) -> u8 {
    match k {
        MsgKind::Heartbeat => 0u8,
        MsgKind::Chat => 1u8,
        MsgKind::Move => 2u8,
        MsgKind::EntEvent => 3u8,
        MsgKind::WorldJoin => 4u8,
    }
}

/// Whether a kind uses the reliable-ordered delivery contract.
pub open spec fn spec_is_reliable(k: MsgKind) -> bool {
    match k {
        MsgKind::Heartbeat => false,
        MsgKind::Chat => true,
        MsgKind::Move => false,
        MsgKind::EntEvent => true,
        MsgKind::WorldJoin => true,
    }
}

/// The one reliable tuning profile every reliable channel shares.
pub fn sensible_reliable() -> (r: ReliableSettings)
    ensures
        r == (ReliableSettings {
            bandwidth: 4096u32,
            recv_window_size: 1024u32,
            send_window_size: 1024u32,
            burst_bandwidth: 1024u32,
            init_send: 512u32,
            wakeup_time_ms: 100u32,
            initial_rtt_ms: 200u32,
            max_rtt_ms: 2000u32,
            rtt_update_factor_permille: 100u32,
            rtt_resend_factor_permille: 1500u32,
            max_message_len: 1024u32,
        }),
{
    ReliableSettings {
        bandwidth: 4096,
        recv_window_size: 1024,
        send_window_size: 1024,
        burst_bandwidth: 1024,
        init_send: 512,
        wakeup_time_ms: 100,
        initial_rtt_ms: 200,
        max_rtt_ms: 2000,
        rtt_update_factor_permille: 100,
        rtt_resend_factor_permille: 1500,
        max_message_len: 1024,
    }
}

/// The static channel configuration of one message kind: its channel index,
/// its delivery mode, and its buffer sizes. Identical on both ends.
pub fn settings_for(k: MsgKind) -> (r: ChannelSettings)
    ensures
        r.channel == spec_channel_index(k),
        (r.mode is Reliable) == spec_is_reliable(k),
        r.message_buffer_size == MESSAGE_BUFFER_SIZE,
        r.packet_buffer_size == MESSAGE_BUFFER_SIZE,
{
    let mode = if is_reliable(k) {
        ChannelMode::Reliable(sensible_reliable())
    } else {
        ChannelMode::Unreliable
    };
    ChannelSettings {
        channel: channel_index(k),
        mode,
        message_buffer_size: MESSAGE_BUFFER_SIZE,
        packet_buffer_size: MESSAGE_BUFFER_SIZE,
    }
}

/// Returns the channel index a kind is bound to.
#[verifier::when_used_as_spec(spec_channel_index)]
pub fn channel_index(k: MsgKind) -> (r: u8)
    ensures
        r == spec_channel_index(k),
{
    match k {
        MsgKind::Heartbeat => 0,
        MsgKind::Chat => 1,
        MsgKind::Move => 2,
        MsgKind::EntEvent => 3,
        MsgKind::WorldJoin => 4,
    }
}

/// Returns whether a kind is delivered reliably.
#[verifier::when_used_as_spec(spec_is_reliable)]
pub fn is_reliable(k: MsgKind) -> (r: bool)
    ensures
        r == spec_is_reliable(k),
{
    match k {
        MsgKind::Heartbeat => false,
        MsgKind::Chat => true,
        MsgKind::Move => false,
        MsgKind::EntEvent => true,
        MsgKind::WorldJoin => true,
    }
}

/// The channel binding is one-to-one: distinct kinds never share an index.
pub proof fn lemma_channel_index_injective(a: MsgKind, b: MsgKind)
    ensures
        spec_channel_index(a) == spec_channel_index(b) ==> a == b,
{
}

} // verus!
