//! One peer's set of logical message channels: per-kind incoming and
//! outgoing queues with the delivery contract of the static channel table.
//! Reliable kinds refuse oversized or overflowing messages and report why;
//! unreliable kinds never block, dropping their oldest unsent message when
//! full. Nothing leaves the set until a flush drains the outgoing queues
//! into one packet queue for the transport.
use vstd::prelude::*;
use crate::codec::{encode, fits_wire, msg_view_wf, spec_encode};
use crate::msg::{
    Chat, EntEvent, Heartbeat, Message, Move, MsgKind, MsgView, WorldJoin, kind_of,
    is_reliable, spec_is_reliable, spec_kind_of, spec_view_kind, MAX_MESSAGE_LEN,
    MESSAGE_BUFFER_SIZE,
};

verus! {

/// Why a send was refused.
#[derive(Clone, Copy, Debug, PartialEq, Eq, Structural)]
pub enum SendError {
    /// A reliable queue already holds its full window of unsent messages.
    BufferFull,
    /// The encoded message exceeds what a reliable channel accepts.
    TooLarge,
    /// The transport behind this channel set is gone.
    TornDown,
}

/// The multiplexed channel set of one peer.
#[derive(Debug)]
pub struct ChannelSet {
    pub in_heartbeat: Vec<Heartbeat>,
    pub in_chat: Vec<Chat>,
    pub in_move: Vec<Move>,
    pub in_ent: Vec<EntEvent>,
    pub in_join: Vec<WorldJoin>,
    pub out_heartbeat: Vec<Message>,
    pub out_chat: Vec<Message>,
    pub out_move: Vec<Message>,
    pub out_ent: Vec<Message>,
    pub out_join: Vec<Message>,
    /// Set once the transport reports its receiver gone; every later send
    /// is refused.
    pub torn_down: bool,
}

/// The outgoing queue bound to a message kind.
pub open spec fn spec_out(s: ChannelSet, k: MsgKind) -> Seq<Message> {
    match k {
        MsgKind::Heartbeat => s.out_heartbeat@,
        MsgKind::Chat => s.out_chat@,
        MsgKind::Move => s.out_move@,
        MsgKind::EntEvent => s.out_ent@,
        MsgKind::WorldJoin => s.out_join@,
    }
}

/// A well-formed outgoing queue: bounded, and holding only its own kind.
pub open spec fn queue_wf(q: Seq<Message>, k: MsgKind) -> bool {
    &&& q.len() <= MESSAGE_BUFFER_SIZE
    &&& forall|i: int| 0 <= i < q.len() ==> spec_kind_of(#[trigger] q[i]) == k
}

/// The queues the two channel sets disagree on are at most the outgoing
/// queue of kind `k`.
pub open spec fn outs_equal_except(a: ChannelSet, b: ChannelSet, k: MsgKind) -> bool {
    &&& a.in_heartbeat@ == b.in_heartbeat@
    &&& a.in_chat@ == b.in_chat@
    &&& a.in_move@ == b.in_move@
    &&& a.in_ent@ == b.in_ent@
    &&& a.in_join@ == b.in_join@
    &&& a.torn_down == b.torn_down
    &&& forall|k2: MsgKind| k2 != k ==> #[trigger] spec_out(a, k2) == spec_out(b, k2)
}

/// Whether a send of `m` into `s` is accepted: the transport must be up,
/// and a reliable kind must fit the wire and find room in its window;
/// an unreliable kind always finds room by evicting its oldest message.
pub open spec fn spec_send_accepts(s: ChannelSet, m: Message) -> bool {
    let k = spec_kind_of(m);
    &&& !s.torn_down
    &&& (spec_is_reliable(k) ==> msg_view_wf(m@) && spec_encode(m@).len() <= MAX_MESSAGE_LEN
        && spec_out(s, k).len() < MESSAGE_BUFFER_SIZE)
}

/// The outgoing queue after an accepted send: the message at the back, and
/// on a full unreliable queue the oldest message gone.
pub open spec fn spec_sent_queue(oq: Seq<Message>, m: Message) -> Seq<Message> {
    if oq.len() >= MESSAGE_BUFFER_SIZE {
        oq.skip(1).push(m)
    } else {
        oq.push(m)
    }
}

/// After a send touched only its own kind's queue, well-formedness holds
/// again provided the touched queue stayed bounded and kind-pure.
proof fn lemma_send_wf(a: ChannelSet, b: ChannelSet, m: Message)
    requires
        a.wf(),
        outs_equal_except(a, b, spec_kind_of(m)),
        queue_wf(spec_out(b, spec_kind_of(m)), spec_kind_of(m)),
    ensures
        b.wf(),
{
    assert forall|k: MsgKind| queue_wf(#[trigger] spec_out(b, k), k) by {
        if k != spec_kind_of(m) {
            assert(spec_out(b, k) == spec_out(a, k));
        }
    }
}

impl ChannelSet {
    /// Every outgoing queue bounded and kind-pure.
    pub open spec fn wf(self) -> bool {
        forall|k: MsgKind| queue_wf(#[trigger] spec_out(self, k), k)
    }

    /// A fresh channel set: all queues empty, transport up.
    pub fn new() -> (r: ChannelSet)
        ensures
            r.wf(),
            !r.torn_down,
            r.in_heartbeat@.len() == 0,
            r.in_chat@.len() == 0,
            r.in_move@.len() == 0,
            r.in_ent@.len() == 0,
            r.in_join@.len() == 0,
            forall|k: MsgKind| #[trigger] spec_out(r, k) == Seq::<Message>::empty(),
    {
        let r = ChannelSet {
            in_heartbeat: Vec::new(),
            in_chat: Vec::new(),
            in_move: Vec::new(),
            in_ent: Vec::new(),
            in_join: Vec::new(),
            out_heartbeat: Vec::new(),
            out_chat: Vec::new(),
            out_move: Vec::new(),
            out_ent: Vec::new(),
            out_join: Vec::new(),
            torn_down: false,
        };
        assert forall|k: MsgKind| #[trigger] spec_out(r, k) == Seq::<Message>::empty() by {
            assert(spec_out(r, k).len() == 0);
            assert(spec_out(r, k) =~= Seq::<Message>::empty());
        }
        r
    }

    /// Marks the transport behind this set as gone.
    pub fn tear_down(&mut self)
        ensures
            *final(self) == (ChannelSet { torn_down: true, ..*old(self) }),
    {
        self.torn_down = true;
    }

    /// Queues one message on its kind's channel, or says why it cannot:
    /// the transport is gone, the message does not fit a reliable channel,
    /// or the reliable window is full. An accepted unreliable message
    /// evicts the oldest unsent one when its buffer is full.
    pub fn send(&mut self, m: Message) -> (r: Result<(), SendError>)
        requires
            old(self).wf(),
        ensures
            final(self).wf(),
            outs_equal_except(*old(self), *final(self), spec_kind_of(m)),
            r is Ok <==> spec_send_accepts(*old(self), m),
            r is Ok ==> spec_out(*final(self), spec_kind_of(m)) == spec_sent_queue(
                spec_out(*old(self), spec_kind_of(m)),
                m,
            ),
            r is Err ==> spec_out(*final(self), spec_kind_of(m)) == spec_out(
                *old(self),
                spec_kind_of(m),
            ),
            r == Result::<(), SendError>::Err(SendError::TornDown) <==> old(self).torn_down,
            r == Result::<(), SendError>::Err(SendError::TooLarge) <==> (!old(self).torn_down && spec_is_reliable(spec_kind_of(m)) && !(msg_view_wf(m@)
                && spec_encode(m@).len() <= MAX_MESSAGE_LEN)),
            r == Result::<(), SendError>::Err(SendError::BufferFull) <==> (!old(self).torn_down && spec_is_reliable(spec_kind_of(m)) && msg_view_wf(m@)
                && spec_encode(m@).len() <= MAX_MESSAGE_LEN && spec_out(
                *old(self),
                spec_kind_of(m),
            ).len() >= MESSAGE_BUFFER_SIZE),
    {
        if self.torn_down {
            return Err(SendError::TornDown);
        }
        let k = kind_of(&m);
        if is_reliable(k) {
            if !fits_wire(&m) {
                return Err(SendError::TooLarge);
            }
            let enc = encode(&m);
            if enc.len() > MAX_MESSAGE_LEN {
                return Err(SendError::TooLarge);
            }
            let qlen = match k {
                MsgKind::Heartbeat => self.out_heartbeat.len(),
                MsgKind::Chat => self.out_chat.len(),
                MsgKind::Move => self.out_move.len(),
                MsgKind::EntEvent => self.out_ent.len(),
                MsgKind::WorldJoin => self.out_join.len(),
            };
            if qlen >= MESSAGE_BUFFER_SIZE {
                return Err(SendError::BufferFull);
            }
            match k {
                MsgKind::Heartbeat => self.out_heartbeat.push(m),
                MsgKind::Chat => self.out_chat.push(m),
                MsgKind::Move => self.out_move.push(m),
                MsgKind::EntEvent => self.out_ent.push(m),
                MsgKind::WorldJoin => self.out_join.push(m),
            }
            proof {
                let k_ = spec_kind_of(m);
                let oq = spec_out(*old(self), k_);
                let nq = spec_out(*self, k_);
                assert(nq == oq.push(m));
                assert forall|i: int| 0 <= i < nq.len() implies spec_kind_of(
                    #[trigger] nq[i],
                ) == k_ by {
                    if i < oq.len() {
                        assert(queue_wf(oq, k_));
                    }
                }
                lemma_send_wf(*old(self), *self, m);
            }
            Ok(())
        } else {
            let qlen = match k {
                MsgKind::Heartbeat => self.out_heartbeat.len(),
                MsgKind::Chat => self.out_chat.len(),
                MsgKind::Move => self.out_move.len(),
                MsgKind::EntEvent => self.out_ent.len(),
                MsgKind::WorldJoin => self.out_join.len(),
            };
            if qlen >= MESSAGE_BUFFER_SIZE {
                match k {
                    MsgKind::Heartbeat => { self.out_heartbeat.remove(0); },
                    MsgKind::Chat => { self.out_chat.remove(0); },
                    MsgKind::Move => { self.out_move.remove(0); },
                    MsgKind::EntEvent => { self.out_ent.remove(0); },
                    MsgKind::WorldJoin => { self.out_join.remove(0); },
                }
            }
            match k {
                MsgKind::Heartbeat => self.out_heartbeat.push(m),
                MsgKind::Chat => self.out_chat.push(m),
                MsgKind::Move => self.out_move.push(m),
                MsgKind::EntEvent => self.out_ent.push(m),
                MsgKind::WorldJoin => self.out_join.push(m),
            }
            proof {
                let k_ = spec_kind_of(m);
                let oq = spec_out(*old(self), k_);
                let nq = spec_out(*self, k_);
                if oq.len() >= MESSAGE_BUFFER_SIZE {
                    assert(oq.remove(0) =~= oq.skip(1));
                    assert(nq == oq.skip(1).push(m));
                } else {
                    assert(nq == oq.push(m));
                }
                assert(nq == spec_sent_queue(oq, m));
                assert forall|i: int| 0 <= i < nq.len() implies spec_kind_of(
                    #[trigger] nq[i],
                ) == k_ by {
                    assert(queue_wf(oq, k_));
                    if i < nq.len() - 1 {
                        if oq.len() >= MESSAGE_BUFFER_SIZE {
                            assert(nq[i] == oq.skip(1)[i]);
                            assert(oq.skip(1)[i] == oq[i + 1]);
                        } else {
                            assert(nq[i] == oq[i]);
                        }
                    } else {
                        assert(nq[i] == m);
                    }
                }
                lemma_send_wf(*old(self), *self, m);
            }
            Ok(())
        }
    }

    /// Drains every outgoing queue, in channel-index order, into one packet
    /// queue for the transport; nothing is sent without this.
    pub fn flush_all(&mut self) -> (r: Vec<Message>)
        ensures
            r@ == spec_out(*old(self), MsgKind::Heartbeat) + spec_out(
                *old(self),
                MsgKind::Chat,
            ) + spec_out(*old(self), MsgKind::Move) + spec_out(*old(self), MsgKind::EntEvent)
                + spec_out(*old(self), MsgKind::WorldJoin),
            *final(self) == (ChannelSet {
                out_heartbeat: final(self).out_heartbeat,
                out_chat: final(self).out_chat,
                out_move: final(self).out_move,
                out_ent: final(self).out_ent,
                out_join: final(self).out_join,
                ..*old(self)
            }),
            forall|k: MsgKind| #[trigger] spec_out(*final(self), k) == Seq::<Message>::empty(),
            final(self).wf(),
    {
        let mut r: Vec<Message> = Vec::new();
        r.append(&mut self.out_heartbeat);
        r.append(&mut self.out_chat);
        r.append(&mut self.out_move);
        r.append(&mut self.out_ent);
        r.append(&mut self.out_join);
        assert forall|k: MsgKind| #[trigger] spec_out(*final(self), k)
            == Seq::<Message>::empty() by {
            assert(spec_out(*final(self), k).len() == 0);
            assert(spec_out(*final(self), k) =~= Seq::<Message>::empty());
        }
        r
    }

    /// Routes one decoded incoming message into its kind's inbox.
    pub fn push_incoming(&mut self, m: Message)
        ensures
            m matches Message::Heartbeat(h) ==> *final(self) == (ChannelSet {
                in_heartbeat: final(self).in_heartbeat,
                ..*old(self)
            }) && final(self).in_heartbeat@ == old(self).in_heartbeat@.push(h),
            m matches Message::Chat(c) ==> *final(self) == (ChannelSet {
                in_chat: final(self).in_chat,
                ..*old(self)
            }) && final(self).in_chat@ == old(self).in_chat@.push(c),
            m matches Message::Move(v) ==> *final(self) == (ChannelSet {
                in_move: final(self).in_move,
                ..*old(self)
            }) && final(self).in_move@ == old(self).in_move@.push(v),
            m matches Message::EntEvent(e) ==> *final(self) == (ChannelSet {
                in_ent: final(self).in_ent,
                ..*old(self)
            }) && final(self).in_ent@ == old(self).in_ent@.push(e),
            m matches Message::WorldJoin(w) ==> *final(self) == (ChannelSet {
                in_join: final(self).in_join,
                ..*old(self)
            }) && final(self).in_join@ == old(self).in_join@.push(w),
    {
        match m {
            Message::Heartbeat(h) => self.in_heartbeat.push(h),
            Message::Chat(c) => self.in_chat.push(c),
            Message::Move(v) => self.in_move.push(v),
            Message::EntEvent(e) => self.in_ent.push(e),
            Message::WorldJoin(w) => self.in_join.push(w),
        }
    }

    /// Takes the next pending heartbeat, if any.
    pub fn recv_heartbeat(&mut self) -> (r: Option<Heartbeat>)
        ensures
            *final(self) == (ChannelSet { in_heartbeat: final(self).in_heartbeat, ..*old(self) }),
            old(self).in_heartbeat@.len() == 0 ==> r is None && final(self).in_heartbeat@
                == old(self).in_heartbeat@,
            old(self).in_heartbeat@.len() > 0 ==> r == Some(old(self).in_heartbeat@[0])
                && final(self).in_heartbeat@ == old(self).in_heartbeat@.skip(1),
    {
        if self.in_heartbeat.len() == 0 {
            None
        } else {
            let v = self.in_heartbeat.remove(0);
            assert(final(self).in_heartbeat@ =~= old(self).in_heartbeat@.skip(1));
            Some(v)
        }
    }

    /// Takes the next pending chat line, if any.
    pub fn recv_chat(&mut self) -> (r: Option<Chat>)
        ensures
            *final(self) == (ChannelSet { in_chat: final(self).in_chat, ..*old(self) }),
            old(self).in_chat@.len() == 0 ==> r is None && final(self).in_chat@ == old(self).in_chat@,
            old(self).in_chat@.len() > 0 ==> r == Some(old(self).in_chat@[0]) && final(self).in_chat@ == old(self).in_chat@.skip(1),
    {
        if self.in_chat.len() == 0 {
            None
        } else {
            let v = self.in_chat.remove(0);
            assert(final(self).in_chat@ =~= old(self).in_chat@.skip(1));
            Some(v)
        }
    }

    /// Takes the next pending position update, if any.
    pub fn recv_move(&mut self) -> (r: Option<Move>)
        ensures
            *final(self) == (ChannelSet { in_move: final(self).in_move, ..*old(self) }),
            old(self).in_move@.len() == 0 ==> r is None && final(self).in_move@ == old(self).in_move@,
            old(self).in_move@.len() > 0 ==> r == Some(old(self).in_move@[0]) && final(self).in_move@ == old(self).in_move@.skip(1),
    {
        if self.in_move.len() == 0 {
            None
        } else {
            let v = self.in_move.remove(0);
            assert(final(self).in_move@ =~= old(self).in_move@.skip(1));
            Some(v)
        }
    }

    /// Takes the next pending entity event, if any.
    pub fn recv_ent_event(&mut self) -> (r: Option<EntEvent>)
        ensures
            *final(self) == (ChannelSet { in_ent: final(self).in_ent, ..*old(self) }),
            old(self).in_ent@.len() == 0 ==> r is None && final(self).in_ent@ == old(self).in_ent@,
            old(self).in_ent@.len() > 0 ==> r == Some(old(self).in_ent@[0]) && final(self).in_ent@ == old(self).in_ent@.skip(1),
    {
        if self.in_ent.len() == 0 {
            None
        } else {
            let v = self.in_ent.remove(0);
            assert(final(self).in_ent@ =~= old(self).in_ent@.skip(1));
            Some(v)
        }
    }

    /// Takes the next pending join snapshot, if any.
    pub fn recv_world_join(&mut self) -> (r: Option<WorldJoin>)
        ensures
            *final(self) == (ChannelSet { in_join: final(self).in_join, ..*old(self) }),
            old(self).in_join@.len() == 0 ==> r is None && final(self).in_join@ == old(self).in_join@,
            old(self).in_join@.len() > 0 ==> r == Some(old(self).in_join@[0]) && final(self).in_join@ == old(self).in_join@.skip(1),
    {
        if self.in_join.len() == 0 {
            None
        } else {
            let v = self.in_join.remove(0);
            assert(final(self).in_join@ =~= old(self).in_join@.skip(1));
            Some(v)
        }
    }
}

/// Queues a message, swallowing a rejection: callers of the fire-and-forget
/// paths tolerate message loss by design.
pub fn send_or_err(channels: &mut ChannelSet, m: Message)
    requires
        old(channels).wf(),
    ensures
        final(channels).wf(),
        outs_equal_except(*old(channels), *final(channels), spec_kind_of(m)),
        spec_send_accepts(*old(channels), m) ==> spec_out(
            *final(channels),
            spec_kind_of(m),
        ) == spec_sent_queue(spec_out(*old(channels), spec_kind_of(m)), m),
        !spec_send_accepts(*old(channels), m) ==> spec_out(
            *final(channels),
            spec_kind_of(m),
        ) == spec_out(*old(channels), spec_kind_of(m)),
{
    let _ = channels.send(m);
}

/// The outgoing queue of `msgs[0..]`'s kind after sending them in order
/// into a channel set whose queue of that kind starts as `q`: each message
/// lands per the send contract, or is dropped where the send is refused.
pub open spec fn spec_fold_sends(q: Seq<Message>, torn: bool, msgs: Seq<Message>) -> Seq<
    Message,
>
    decreases msgs.len(),
{
    if msgs.len() == 0 {
        q
    } else {
        let m = msgs[0];
        let accepted = !torn && (spec_is_reliable(spec_kind_of(m)) ==> msg_view_wf(m@)
            && spec_encode(m@).len() <= MAX_MESSAGE_LEN && q.len() < MESSAGE_BUFFER_SIZE);
        let q2 = if accepted {
            spec_sent_queue(q, m)
        } else {
            q
        };
        spec_fold_sends(q2, torn, msgs.skip(1))
    }
}

/// The value-level counterpart of [`spec_sent_queue`].
pub open spec fn spec_sent_queue_view(q: Seq<MsgView>, m: MsgView) -> Seq<MsgView> {
    if q.len() >= MESSAGE_BUFFER_SIZE {
        q.skip(1).push(m)
    } else {
        q.push(m)
    }
}

/// The value-level counterpart of [`spec_fold_sends`]: the same send
/// contract, stated over message values instead of queue entries.
pub open spec fn spec_fold_sends_view(q: Seq<MsgView>, torn: bool, msgs: Seq<MsgView>) -> Seq<
    MsgView,
>
    decreases msgs.len(),
{
    if msgs.len() == 0 {
        q
    } else {
        let m = msgs[0];
        let accepted = !torn && (spec_is_reliable(spec_view_kind(m)) ==> msg_view_wf(m)
            && spec_encode(m).len() <= MAX_MESSAGE_LEN && q.len() < MESSAGE_BUFFER_SIZE);
        let q2 = if accepted {
            spec_sent_queue_view(q, m)
        } else {
            q
        };
        spec_fold_sends_view(q2, torn, msgs.skip(1))
    }
}

} // verus!
