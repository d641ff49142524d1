//! The authoritative server world: per-peer sessions with heartbeat
//! liveness, a generation-tagged entity store, delta position tracking,
//! per-shard chat fan-out, and the pool of recyclable world shards.
//!
//! Time enters every liveness decision as an explicit millisecond count;
//! the surrounding application supplies the clock and moves the flushed
//! message queues onto the wire.
use vstd::prelude::*;
use crate::Art;
use crate::msg::{
    Chat, EntEvent, Message, Move, MsgKind, MsgView, Pos, WorldJoin, spec_kind_of,
    MAX_MESSAGE_LEN, MESSAGE_BUFFER_SIZE,
};
use crate::channel::{
    ChannelSet, outs_equal_except, send_or_err, spec_fold_sends, spec_fold_sends_view,
    queue_wf, spec_out, spec_send_accepts, spec_sent_queue, spec_sent_queue_view,
};
use crate::codec::{msg_view_wf, push_char, spec_encode};
use vstd::string::*;

verus! {

/// A silent session is evicted once this many milliseconds pass without a
/// heartbeat.
pub const HEARTBEAT_TIMEOUT_MS: u64 = 3000;

/// The server-side handle for one connected peer.
#[derive(Debug)]
pub struct Session {
    /// The peer's multiplexed channel set.
    pub channel: ChannelSet,
    /// An opaque token naming the peer's network endpoint.
    pub addr: u64,
    /// When the peer was last heard from, in milliseconds.
    pub heartbeat: u64,
}

impl Session {
    /// Wraps a fresh channel set and endpoint; the peer counts as just
    /// heard from.
    pub fn new(channel: ChannelSet, addr: u64, now_ms: u64) -> (r: Session)
        ensures
            r.channel == channel,
            r.addr == addr,
            r.heartbeat == now_ms,
    {
        Session { channel, addr, heartbeat: now_ms }
    }

    /// Consumes every pending heartbeat (each marks the peer as heard from
    /// now), then reports whether the peer has been silent beyond the
    /// timeout threshold.
    pub fn heartbeat(&mut self, now_ms: u64) -> (timed_out: bool)
        ensures
            final(self).addr == old(self).addr,
            final(self).channel == (ChannelSet {
                in_heartbeat: final(self).channel.in_heartbeat,
                ..old(self).channel
            }),
            final(self).channel.in_heartbeat@.len() == 0,
            final(self).heartbeat == if old(self).channel.in_heartbeat@.len() > 0 {
                now_ms
            } else {
                old(self).heartbeat
            },
            timed_out == (now_ms > final(self).heartbeat + HEARTBEAT_TIMEOUT_MS),
    {
        let ghost pre = *self;
        let mut heard = false;
        loop
            invariant
                self.addr == pre.addr,
                self.heartbeat == pre.heartbeat,
                self.channel == (ChannelSet {
                    in_heartbeat: self.channel.in_heartbeat,
                    ..pre.channel
                }),
                self.channel.in_heartbeat@.len() <= pre.channel.in_heartbeat@.len(),
                heard == (self.channel.in_heartbeat@.len() < pre.channel.in_heartbeat@.len()),
            ensures
                self.addr == pre.addr,
                self.heartbeat == pre.heartbeat,
                self.channel == (ChannelSet {
                    in_heartbeat: self.channel.in_heartbeat,
                    ..pre.channel
                }),
                heard == (pre.channel.in_heartbeat@.len() > 0),
                self.channel.in_heartbeat@.len() == 0,
            decreases self.channel.in_heartbeat@.len(),
        {
            match self.channel.recv_heartbeat() {
                Some(_) => {
                    heard = true;
                },
                None => {
                    break;
                },
            }
        }
        if heard {
            self.heartbeat = now_ms;
        }
        now_ms > self.heartbeat && now_ms - self.heartbeat > HEARTBEAT_TIMEOUT_MS
    }
}

/// A generation-tagged entity handle: the slot index plus how many times
/// that slot had been vacated when the handle was issued, so a recycled
/// slot can never be mistaken for the entity that used to live there.
#[derive(Clone, Copy, Debug, PartialEq, Eq, Structural)]
pub struct EntityId {
    pub index: u32,
    pub generation: u32,
}

/// The wire form of an entity handle: index in the low half, generation in
/// the high half.
pub open spec fn spec_to_bits(id: EntityId) -> u64 {
    (id.index as u64) | ((id.generation as u64) << 32)
}

impl EntityId {
    /// Packs the handle into one wire integer.
    pub fn to_bits(self) -> (r: u64)
        ensures
            r == spec_to_bits(self),
    {
        (self.index as u64) | ((self.generation as u64) << 32)
    }
}

/// Distinct handles pack to distinct wire integers.
pub proof fn lemma_to_bits_injective(a: EntityId, b: EntityId)
    ensures
        spec_to_bits(a) == spec_to_bits(b) ==> a == b,
{
    let (ai, ag, bi, bg) = (a.index, a.generation, b.index, b.generation);
    assert(((ai as u64) | ((ag as u64) << 32) == (bi as u64) | ((bg as u64) << 32)) ==> (ai
        == bi && ag == bg)) by (bit_vector);
}

/// One entity of a shard: its position, its looks, the session steering it
/// (none for decorations), and the position last broadcast for it.
#[derive(Debug)]
pub struct Entity {
    pub pos: Pos,
    pub art: Art,
    pub session: Option<Session>,
    pub last_pos: Option<Pos>,
}

/// One slot of the entity store: its current generation and, when
/// occupied, its entity.
#[derive(Debug)]
pub struct Slot {
    pub generation: u32,
    pub data: Option<Entity>,
}

/// A player's island, ready to be placed into a shard.
#[derive(Debug)]
pub struct PlayerIsland {
    pub pos: Pos,
    pub art: Art,
    pub session: Session,
}

impl PlayerIsland {
    /// A player entity always looks like an island.
    pub fn new(pos: Pos, session: Session) -> (r: PlayerIsland)
        ensures
            r.pos == pos,
            r.art == Art::Island,
            r.session == session,
    {
        PlayerIsland { pos, session, art: Art::Island }
    }
}

/// Whether the slot holds an entity.
pub open spec fn slot_live(s: Slot) -> bool {
    s.data is Some
}

/// Whether the slot holds a session-steered entity.
pub open spec fn slot_client(s: Slot) -> bool {
    s.data matches Some(e) && e.session is Some
}

/// The channel set of the slot's session; only meaningful for clients.
pub open spec fn slot_channel(s: Slot) -> ChannelSet {
    s.data.unwrap().session.unwrap().channel
}

/// How a queued message relates a channel set before and after one
/// fire-and-forget send: the message sits at the back of its kind's queue
/// when the send was accepted, everything else is untouched.
pub open spec fn sent_to(a: ChannelSet, b: ChannelSet, m: Message) -> bool {
    &&& outs_equal_except(a, b, spec_kind_of(m))
    &&& spec_send_accepts(a, m) ==> spec_out(b, spec_kind_of(m)) == spec_sent_queue(
        spec_out(a, spec_kind_of(m)),
        m,
    )
    &&& !spec_send_accepts(a, m) ==> spec_out(b, spec_kind_of(m)) == spec_out(
        a,
        spec_kind_of(m),
    )
}

/// How one slot relates to its old self after a broadcast of `m`: a client
/// slot keeps its entity and gains the message on its session's channel;
/// any other slot is untouched.
pub open spec fn slot_notified(a: Slot, b: Slot, m: Message) -> bool {
    if slot_client(a) {
        &&& b.generation == a.generation
        &&& b.data is Some
        &&& b.data.unwrap().pos == a.data.unwrap().pos
        &&& b.data.unwrap().art == a.data.unwrap().art
        &&& b.data.unwrap().last_pos == a.data.unwrap().last_pos
        &&& b.data.unwrap().session is Some
        &&& b.data.unwrap().session.unwrap().addr == a.data.unwrap().session.unwrap().addr
        &&& b.data.unwrap().session.unwrap().heartbeat == a.data.unwrap().session.unwrap().heartbeat
        &&& sent_to(slot_channel(a), slot_channel(b), m)
    } else {
        b == a
    }
}

/// Every client slot's channel set is well-formed.
pub open spec fn slots_wf(s: Seq<Slot>) -> bool {
    forall|i: int| 0 <= i < s.len() && slot_client(#[trigger] s[i]) ==> slot_channel(
        s[i],
    ).wf()
}

/// How many of the slots hold clients.
pub open spec fn spec_client_count(s: Seq<Slot>) -> nat
    decreases s.len(),
{
    if s.len() == 0 {
        0
    } else {
        spec_client_count(s.drop_last()) + if slot_client(s.last()) {
            1nat
        } else {
            0nat
        }
    }
}

/// Updating one slot's entity keeps every client channel well-formed,
/// provided the new entity's own channel is.
proof fn lemma_update_wf(a: Seq<Slot>, b: Seq<Slot>, i: int, data: Entity)
    requires
        slots_wf(a),
        0 <= i < a.len(),
        b.len() == a.len(),
        data.session matches Some(s) ==> s.channel.wf(),
        b == a.update(i, Slot { generation: a[i].generation, data: Some(data) }),
    ensures
        slots_wf(b),
{
    assert forall|j: int|
        0 <= j < b.len() && slot_client(#[trigger] b[j]) implies slot_channel(b[j]).wf() by {
        if j != i {
            assert(b[j] == a[j]);
        }
    }
}

/// Appending a slot keeps every client channel well-formed, provided the
/// new entity's own channel is.
proof fn lemma_push_wf(a: Seq<Slot>, b: Seq<Slot>, data: Entity)
    requires
        slots_wf(a),
        data.session matches Some(s) ==> s.channel.wf(),
        b == a.push(Slot { generation: 0u32, data: Some(data) }),
    ensures
        slots_wf(b),
{
    assert forall|j: int|
        0 <= j < b.len() && slot_client(#[trigger] b[j]) implies slot_channel(b[j]).wf() by {
        if j < a.len() {
            assert(b[j] == a[j]);
        }
    }
}

/// The entity store of one shard.
#[derive(Debug)]
pub struct Ecs {
    pub slots: Vec<Slot>,
}

impl Ecs {
    /// Channel sets of all clients well-formed.
    pub open spec fn wf(self) -> bool {
        slots_wf(self.slots@)
    }

    /// An empty store.
    pub fn new() -> (r: Ecs)
        ensures
            r.wf(),
            r.slots@.len() == 0,
    {
        Ecs { slots: Vec::new() }
    }

    /// How many session-steered entities the store holds.
    pub fn client_count(&self) -> (r: usize)
        ensures
            r == spec_client_count(self.slots@),
    {
        let mut count: usize = 0;
        let mut i: usize = 0;
        let n = self.slots.len();
        while i < n
            invariant
                i <= n,
                n == self.slots@.len(),
                count <= i,
                count == spec_client_count(self.slots@.take(i as int)),
            decreases n - i,
        {
            let is_client = match &self.slots[i].data {
                Some(e) => e.session.is_some(),
                None => false,
            };
            if is_client {
                count = count + 1;
            }
            proof {
                assert(self.slots@.take(i + 1 as int).drop_last() =~= self.slots@.take(
                    i as int,
                ));
                assert(self.slots@.take(i + 1 as int).last() == self.slots@[i as int]);
            }
            i = i + 1;
        }
        proof {
            assert(self.slots@.take(n as int) =~= self.slots@);
        }
        count
    }
}

/// The next generation of a vacated slot; wraps at the top of the range.
pub open spec fn spec_next_gen(g: u32) -> u32 {
    if g == u32::MAX {
        0u32
    } else {
        (g + 1) as u32
    }
}

/// The entity-event broadcast: queues the event on every client slot's
/// channel but the one at `skip`; pass the store length (or anything out
/// of range) to skip nobody.
fn broadcast_event(slots: &mut Vec<Slot>, e: EntEvent, skip: usize)
    requires
        slots_wf(old(slots)@),
    ensures
        final(slots)@.len() == old(slots)@.len(),
        slots_wf(final(slots)@),
        forall|j: int| 0 <= j < old(slots)@.len() && j != skip ==> slot_notified(
            old(slots)@[j],
            #[trigger] final(slots)@[j],
            Message::EntEvent(e),
        ),
        skip < old(slots)@.len() ==> final(slots)@[skip as int] == old(slots)@[skip as int],
{
    let ghost pre = slots@;
    let n = slots.len();
    let mut i: usize = 0;
    while i < n
        invariant
            i <= n,
            n == slots@.len(),
            n == pre.len(),
            slots_wf(slots@),
            forall|j: int| 0 <= j < i && j != skip ==> slot_notified(
                pre[j],
                #[trigger] slots@[j],
                Message::EntEvent(e),
            ),
            forall|j: int| i <= j < n ==> #[trigger] slots@[j] == pre[j],
            skip < n ==> slots@[skip as int] == pre[skip as int],
        decreases n - i,
    {
        if i != skip {
            let s = &mut slots[i];
            match &mut s.data {
                Some(ent) => match &mut ent.session {
                    Some(sess) => {
                        send_or_err(&mut sess.channel, Message::EntEvent(e));
                    },
                    None => {},
                },
                None => {},
            }
            proof {
                assert(slot_notified(pre[i as int], slots@[i as int], Message::EntEvent(e)));
            }
        }
        i = i + 1;
    }
}

impl Ecs {
    /// Places an entity into the first vacant slot, or a fresh slot at the
    /// end; hands back its generation-tagged id. No peer is told.
    fn place_entity(&mut self, data: Entity) -> (r: EntityId)
        requires
            old(self).wf(),
            old(self).slots@.len() < u32::MAX,
            data.session matches Some(s) ==> s.channel.wf(),
        ensures
            final(self).wf(),
            r.index as int <= old(self).slots@.len(),
            (r.index as int) < old(self).slots@.len() ==> {
                &&& !slot_live(old(self).slots@[r.index as int])
                &&& r.generation == old(self).slots@[r.index as int].generation
                &&& forall|j: int| 0 <= j < r.index ==> slot_live(#[trigger] old(self).slots@[j])
                &&& final(self).slots@ == old(self).slots@.update(
                    r.index as int,
                    Slot { generation: r.generation, data: Some(data) },
                )
            },
            (r.index as int) == old(self).slots@.len() ==> {
                &&& r.generation == 0
                &&& forall|j: int| 0 <= j < r.index ==> slot_live(#[trigger] old(self).slots@[j])
                &&& final(self).slots@ == old(self).slots@.push(
                    Slot { generation: 0u32, data: Some(data) },
                )
            },
    {
        let index = self.first_free();
        if index < self.slots.len() {
            let generation = self.slots[index].generation;
            let s = &mut self.slots[index];
            s.data = Some(data);
            proof {
                lemma_update_wf(old(self).slots@, final(self).slots@, index as int, data);
            }
            EntityId { index: index as u32, generation }
        } else {
            self.slots.push(Slot { generation: 0, data: Some(data) });
            proof {
                lemma_push_wf(old(self).slots@, final(self).slots@, data);
            }
            EntityId { index: index as u32, generation: 0 }
        }
    }

    /// The first vacant slot, or the store length when every slot is
    /// occupied.
    fn first_free(&self) -> (r: usize)
        ensures
            r <= self.slots@.len(),
            r < self.slots@.len() ==> !slot_live(self.slots@[r as int]),
            forall|j: int| 0 <= j < r ==> slot_live(#[trigger] self.slots@[j]),
    {
        let n = self.slots.len();
        let mut i: usize = 0;
        while i < n
            invariant
                i <= n,
                n == self.slots@.len(),
                forall|j: int| 0 <= j < i ==> slot_live(#[trigger] self.slots@[j]),
            decreases n - i,
        {
            if self.slots[i].data.is_none() {
                return i;
            }
            i = i + 1;
        }
        n
    }

    /// Places a session-less decoration entity; no peer is told.
    pub fn spawn_decoration(&mut self, pos: Pos, art: Art) -> (r: EntityId)
        requires
            old(self).wf(),
            old(self).slots@.len() < u32::MAX,
        ensures
            final(self).wf(),
            r.index as int <= old(self).slots@.len(),
            (r.index as int) < old(self).slots@.len() ==> {
                &&& !slot_live(old(self).slots@[r.index as int])
                &&& r.generation == old(self).slots@[r.index as int].generation
                &&& forall|j: int| 0 <= j < r.index ==> slot_live(#[trigger] old(self).slots@[j])
                &&& final(self).slots@ == old(self).slots@.update(
                    r.index as int,
                    Slot {
                        generation: r.generation,
                        data: Some(
                            Entity { pos, art, session: None, last_pos: None },
                        ),
                    },
                )
            },
            (r.index as int) == old(self).slots@.len() ==> {
                &&& r.generation == 0
                &&& forall|j: int| 0 <= j < r.index ==> slot_live(#[trigger] old(self).slots@[j])
                &&& final(self).slots@ == old(self).slots@.push(
                    Slot {
                        generation: 0u32,
                        data: Some(
                            Entity { pos, art, session: None, last_pos: None },
                        ),
                    },
                )
            },
    {
        self.place_entity(Entity { pos, art, session: None, last_pos: None })
    }

    /// Inserts a player's island, telling every peer already in the shard
    /// (and nobody else) about the spawn, then hands back its id. The
    /// joining peer itself hears nothing here.
    pub fn add_island(&mut self, island: PlayerIsland) -> (r: EntityId)
        requires
            old(self).wf(),
            old(self).slots@.len() < u32::MAX,
            island.session.channel.wf(),
        ensures
            final(self).wf(),
            r.index as int <= old(self).slots@.len(),
            final(self).slots@.len() as int == if (r.index as int) == old(self).slots@.len() {
                old(self).slots@.len() as int + 1
            } else {
                old(self).slots@.len() as int
            },
            slot_live(final(self).slots@[r.index as int]),
            final(self).slots@[r.index as int].generation == r.generation,
            final(self).slots@[r.index as int].data == Some(
                Entity {
                    pos: island.pos,
                    art: island.art,
                    session: Some(island.session),
                    last_pos: None,
                },
            ),
            (r.index as int) < old(self).slots@.len() ==> !slot_live(
                old(self).slots@[r.index as int],
            ) && r.generation == old(self).slots@[r.index as int].generation,
            (r.index as int) == old(self).slots@.len() ==> r.generation == 0,
            forall|j: int| 0 <= j < r.index ==> slot_live(#[trigger] old(self).slots@[j]),
            forall|j: int| 0 <= j < old(self).slots@.len() && j != r.index ==> slot_notified(
                old(self).slots@[j],
                #[trigger] final(self).slots@[j],
                Message::EntEvent(
                    EntEvent::Spawn(spec_to_bits(r), island.pos, island.art),
                ),
            ),
    {
        let n = self.slots.len();
        let index = self.first_free();
        let generation = if index < n {
            self.slots[index].generation
        } else {
            0
        };
        let id = EntityId { index: index as u32, generation };
        broadcast_event(
            &mut self.slots,
            EntEvent::Spawn(id.to_bits(), island.pos, island.art),
            n,
        );
        let row = Entity {
            pos: island.pos,
            art: island.art,
            session: Some(island.session),
            last_pos: None,
        };
        if index < self.slots.len() {
            let s = &mut self.slots[index];
            s.data = Some(row);
        } else {
            self.slots.push(Slot { generation: 0, data: Some(row) });
        }
        id
    }
}

/// Why an entity could not be removed.
#[derive(Clone, Copy, Debug, PartialEq, Eq, Structural)]
pub enum EcsError {
    /// No entity with this id (and generation) lives in the store.
    NoSuchEntity,
    /// The entity exists but carries no session to take an island from.
    MissingComponent,
}

/// Whether an id names a live slot of the given store.
pub open spec fn spec_id_live(s: Seq<Slot>, id: EntityId) -> bool {
    &&& (id.index as int) < s.len()
    &&& s[id.index as int].generation == id.generation
    &&& slot_live(s[id.index as int])
}

impl Ecs {
    /// Removes a player's island by id, first telling every other peer in
    /// the shard to drop it: the despawn broadcast happens before the
    /// entity disappears, and each remaining peer is told exactly once.
    /// The vacated slot's generation moves on, so the id is dead for good.
    pub fn remove_island(&mut self, ent: EntityId) -> (r: Result<PlayerIsland, EcsError>)
        requires
            old(self).wf(),
        ensures
            final(self).wf(),
            final(self).slots@.len() == old(self).slots@.len(),
            r is Ok <==> (spec_id_live(old(self).slots@, ent) && slot_client(
                old(self).slots@[ent.index as int],
            )),
            r == Result::<PlayerIsland, EcsError>::Err(EcsError::NoSuchEntity) <==> !spec_id_live(
                old(self).slots@,
                ent,
            ),
            r == Result::<PlayerIsland, EcsError>::Err(EcsError::MissingComponent) <==> (
            spec_id_live(old(self).slots@, ent) && !slot_client(
                old(self).slots@[ent.index as int],
            )),
            r is Err ==> final(self).slots@ == old(self).slots@,
            r matches Ok(island) ==> {
                let row = old(self).slots@[ent.index as int].data.unwrap();
                &&& island.pos == row.pos
                &&& island.art == row.art
                &&& Some(island.session) == row.session
                &&& final(self).slots@[ent.index as int] == Slot {
                    generation: spec_next_gen(ent.generation),
                    data: None,
                }
                &&& forall|j: int|
                    0 <= j < old(self).slots@.len() && j != ent.index ==> slot_notified(
                        old(self).slots@[j],
                        #[trigger] final(self).slots@[j],
                        Message::EntEvent(EntEvent::Despawn(spec_to_bits(ent))),
                    )
            },
    {
        let index = ent.index as usize;
        if index >= self.slots.len() || self.slots[index].generation != ent.generation
            || self.slots[index].data.is_none() {
            return Err(EcsError::NoSuchEntity);
        }
        let is_client = match &self.slots[index].data {
            Some(e) => e.session.is_some(),
            None => false,
        };
        if !is_client {
            return Err(EcsError::MissingComponent);
        }
        broadcast_event(&mut self.slots, EntEvent::Despawn(ent.to_bits()), index);
        let generation = if ent.generation == u32::MAX {
            0
        } else {
            ent.generation + 1
        };
        let slot = self.slots.remove(index);
        self.slots.insert(index, Slot { generation, data: None });
        let row = match slot.data {
            Some(e) => e,
            None => { return Err(EcsError::NoSuchEntity); },
        };
        let session = match row.session {
            Some(s) => s,
            None => { return Err(EcsError::MissingComponent); },
        };
        Ok(PlayerIsland { pos: row.pos, art: row.art, session })
    }

    /// Empties every slot without telling anybody; each vacated slot's
    /// generation moves on. Safe only while no peer is in the shard.
    pub fn clear(&mut self)
        ensures
            final(self).wf(),
            final(self).slots@.len() == old(self).slots@.len(),
            forall|i: int| 0 <= i < final(self).slots@.len() ==> !slot_live(
                #[trigger] final(self).slots@[i],
            ),
            forall|i: int| 0 <= i < final(self).slots@.len() ==> final(self).slots@[i].generation
                == if slot_live(old(self).slots@[i]) {
                    spec_next_gen(old(self).slots@[i].generation)
                } else {
                    old(self).slots@[i].generation
                },
    {
        let ghost pre = self.slots@;
        let n = self.slots.len();
        let mut i: usize = 0;
        while i < n
            invariant
                i <= n,
                n == self.slots@.len(),
                n == pre.len(),
                forall|j: int| i <= j < n ==> #[trigger] self.slots@[j] == pre[j],
                forall|j: int| 0 <= j < i ==> !slot_live(#[trigger] self.slots@[j]),
                forall|j: int| 0 <= j < i ==> #[trigger] self.slots@[j].generation == if slot_live(
                    pre[j],
                ) {
                    spec_next_gen(pre[j].generation)
                } else {
                    pre[j].generation
                },
            decreases n - i,
        {
            let occupied = self.slots[i].data.is_some();
            if occupied {
                let generation = if self.slots[i].generation == u32::MAX {
                    0
                } else {
                    self.slots[i].generation + 1
                };
                let s = &mut self.slots[i];
                s.generation = generation;
                s.data = None;
            }
            i = i + 1;
        }
    }
}

/// The delta update a slot contributes this tick: one move message when it
/// holds an entity whose position drifted from the last broadcast one, and
/// nothing otherwise — in particular nothing for a fresh entity that has
/// never been broadcast from here.
pub open spec fn slot_move(s: Slot, i: int, tick: u32) -> Seq<Move> {
    if slot_live(s) && s.data.unwrap().last_pos is Some && s.data.unwrap().last_pos.unwrap()
        != s.data.unwrap().pos {
        seq![
            Move {
                id: spec_to_bits(EntityId { index: i as u32, generation: s.generation }),
                tick,
                pos: s.data.unwrap().pos,
            },
        ]
    } else {
        Seq::empty()
    }
}

/// The delta updates of a whole store this tick, in slot order.
pub open spec fn spec_moves(s: Seq<Slot>, tick: u32) -> Seq<Move>
    decreases s.len(),
{
    if s.len() == 0 {
        Seq::empty()
    } else {
        spec_moves(s.drop_last(), tick) + slot_move(s.last(), s.len() - 1, tick)
    }
}

/// How a slot looks once its position has been tracked: a live entity's
/// last broadcast position is its live position, everything else as it
/// was; an empty slot stays empty.
pub open spec fn slot_tracked(a: Slot, b: Slot) -> bool {
    if slot_live(a) {
        b == Slot {
            generation: a.generation,
            data: Some(
                Entity {
                    pos: a.data.unwrap().pos,
                    art: a.data.unwrap().art,
                    session: a.data.unwrap().session,
                    last_pos: Some(a.data.unwrap().pos),
                },
            ),
        }
    } else {
        b == a
    }
}

/// Computes the per-tick delta updates: one move message for every entity
/// whose live position differs from the position last broadcast for it,
/// none for anything else.
#[derive(Debug)]
pub struct LastPosTracker {
    /// The move messages of the latest tracked tick.
    pub messages: Vec<Move>,
}

impl LastPosTracker {
    /// Starts with no pending updates.
    pub fn new() -> (r: LastPosTracker)
        ensures
            r.messages@.len() == 0,
    {
        LastPosTracker { messages: Vec::new() }
    }

    /// Rebuilds the delta updates for this tick and marks every entity's
    /// position as broadcast. An entity keeps quiet exactly when its
    /// position did not drift; nothing is ever reported twice.
    pub fn track(&mut self, ecs: &mut Ecs, tick: u32)
        ensures
            final(self).messages@ == spec_moves(old(ecs).slots@, tick),
            final(ecs).slots@.len() == old(ecs).slots@.len(),
            forall|i: int| 0 <= i < old(ecs).slots@.len() ==> slot_tracked(
                old(ecs).slots@[i],
                #[trigger] final(ecs).slots@[i],
            ),
            old(ecs).wf() ==> final(ecs).wf(),
    {
        let ghost pre = ecs.slots@;
        self.messages.clear();
        let n = ecs.slots.len();
        let mut i: usize = 0;
        while i < n
            invariant
                i <= n,
                n == ecs.slots@.len(),
                n == pre.len(),
                self.messages@ == spec_moves(pre.take(i as int), tick),
                forall|j: int| i <= j < n ==> #[trigger] ecs.slots@[j] == pre[j],
                forall|j: int| 0 <= j < i ==> slot_tracked(pre[j], #[trigger] ecs.slots@[j]),
            decreases n - i,
        {
            let (changed, pos, generation) = match &ecs.slots[i].data {
                Some(e) => match &e.last_pos {
                    Some(q) => (*q != e.pos, e.pos, ecs.slots[i].generation),
                    None => (false, e.pos, ecs.slots[i].generation),
                },
                None => (false, Pos { x: 0, y: 0 }, 0u32),
            };
            if changed {
                let id = EntityId { index: i as u32, generation };
                self.messages.push(Move { id: id.to_bits(), tick, pos });
            }
            let s = &mut ecs.slots[i];
            match &mut s.data {
                Some(e) => {
                    e.last_pos = Some(e.pos);
                },
                None => {},
            }
            proof {
                assert(pre.take(i + 1 as int).drop_last() =~= pre.take(i as int));
                assert(pre.take(i + 1 as int).last() == pre[i as int]);
                assert(self.messages@ =~= spec_moves(pre.take(i + 1 as int), tick));
            }
            i = i + 1;
        }
        proof {
            assert(pre.take(n as int) =~= pre);
            assert forall|i2: int|
                0 <= i2 < pre.len() && slot_client(#[trigger] ecs.slots@[i2]) implies pre.len()
                > 0 by {}
        }
    }

    /// Queues every delta update of this tick on one peer's move channel,
    /// oldest first; the channel's drop-oldest rule applies throughout.
    pub fn sync(&self, session: &mut Session)
        requires
            old(session).channel.wf(),
        ensures
            final(session).channel.wf(),
            final(session).addr == old(session).addr,
            final(session).heartbeat == old(session).heartbeat,
            outs_equal_except(old(session).channel, final(session).channel, MsgKind::Move),
            final(session).channel.out_move@ == spec_fold_sends(
                old(session).channel.out_move@,
                old(session).channel.torn_down,
                self.messages@.map(|i: int, mv: Move| Message::Move(mv)),
            ),
    {
        let ghost all = self.messages@.map(|i: int, mv: Move| Message::Move(mv));
        let ghost pre = *session;
        proof {
            assert(all.skip(0) =~= all);
        }
        let n = self.messages.len();
        let mut i: usize = 0;
        while i < n
            invariant
                i <= n,
                n == self.messages@.len(),
                all == self.messages@.map(|i2: int, mv: Move| Message::Move(mv)),
                session.channel.wf(),
                session.addr == pre.addr,
                session.heartbeat == pre.heartbeat,
                outs_equal_except(pre.channel, session.channel, MsgKind::Move),
                spec_fold_sends(pre.channel.out_move@, pre.channel.torn_down, all)
                    == spec_fold_sends(
                    session.channel.out_move@,
                    pre.channel.torn_down,
                    all.skip(i as int),
                ),
            decreases n - i,
        {
            let m = self.messages[i];
            send_or_err(&mut session.channel, Message::Move(m));
            proof {
                assert(all[i as int] == Message::Move(m));
                assert(all.skip(i as int)[0] == all[i as int]);
                assert(all.skip(i as int).skip(1) =~= all.skip(i + 1 as int));
            }
            i = i + 1;
        }
        proof {
            assert(all.skip(n as int) =~= Seq::<Message>::empty());
        }
    }
}

/// The chat lines waiting in a slot's inbox: a client's pending chats, or
/// nothing for any other slot.
pub open spec fn slot_chats(s: Slot) -> Seq<Chat> {
    if slot_client(s) {
        slot_channel(s).in_chat@
    } else {
        Seq::empty()
    }
}

/// All chat lines pending across a store, in slot order.
pub open spec fn spec_pending_chats(s: Seq<Slot>) -> Seq<Chat>
    decreases s.len(),
{
    if s.len() == 0 {
        Seq::empty()
    } else {
        spec_pending_chats(s.drop_last()) + slot_chats(s.last())
    }
}

/// How a slot looks once its chats were collected: a client's chat inbox
/// is empty and nothing else moved; any other slot is untouched.
pub open spec fn slot_drained(a: Slot, b: Slot) -> bool {
    if slot_client(a) {
        &&& b.generation == a.generation
        &&& b.data is Some
        &&& b.data.unwrap().pos == a.data.unwrap().pos
        &&& b.data.unwrap().art == a.data.unwrap().art
        &&& b.data.unwrap().last_pos == a.data.unwrap().last_pos
        &&& b.data.unwrap().session is Some
        &&& b.data.unwrap().session.unwrap().addr == a.data.unwrap().session.unwrap().addr
        &&& b.data.unwrap().session.unwrap().heartbeat == a.data.unwrap().session.unwrap().heartbeat
        &&& slot_channel(b) == (ChannelSet {
            in_chat: slot_channel(b).in_chat,
            ..slot_channel(a)
        })
        &&& slot_channel(b).in_chat@.len() == 0
    } else {
        b == a
    }
}

/// Collects every chat line received from any peer of a shard during one
/// tick and fans the whole batch back out to each peer of that shard.
#[derive(Debug)]
pub struct ChatDispatcher {
    /// All the chats accumulated in a single tick of client handling.
    pub frame: Vec<Chat>,
}

impl ChatDispatcher {
    /// Starts with an empty batch.
    pub fn new() -> (r: ChatDispatcher)
        ensures
            r.frame@.len() == 0,
    {
        ChatDispatcher { frame: Vec::new() }
    }

    /// Rebuilds the batch from everything the shard's peers said since the
    /// last tick, draining every client's chat inbox in slot order.
    pub fn fill(&mut self, ecs: &mut Ecs)
        requires
            old(ecs).wf(),
        ensures
            final(ecs).wf(),
            final(self).frame@ == spec_pending_chats(old(ecs).slots@),
            final(ecs).slots@.len() == old(ecs).slots@.len(),
            forall|i: int| 0 <= i < old(ecs).slots@.len() ==> slot_drained(
                old(ecs).slots@[i],
                #[trigger] final(ecs).slots@[i],
            ),
    {
        let ghost pre = ecs.slots@;
        self.frame.clear();
        let n = ecs.slots.len();
        let mut i: usize = 0;
        while i < n
            invariant
                i <= n,
                n == ecs.slots@.len(),
                n == pre.len(),
                slots_wf(ecs.slots@),
                self.frame@ == spec_pending_chats(pre.take(i as int)),
                forall|j: int| i <= j < n ==> #[trigger] ecs.slots@[j] == pre[j],
                forall|j: int| 0 <= j < i ==> slot_drained(pre[j], #[trigger] ecs.slots@[j]),
            decreases n - i,
        {
            let ghost frame_base = self.frame@;
            let ghost slot_pre = ecs.slots@[i as int];
            let s = &mut ecs.slots[i];
            match &mut s.data {
                Some(e) => match &mut e.session {
                    Some(sess) => {
                        let ghost chat_pre = sess.channel.in_chat@;
                        let ghost sess_pre = *sess;
                        loop
                            invariant
                                sess.addr == sess_pre.addr,
                                sess.heartbeat == sess_pre.heartbeat,
                                sess.channel == (ChannelSet {
                                    in_chat: sess.channel.in_chat,
                                    ..sess_pre.channel
                                }),
                                self.frame@ + sess.channel.in_chat@ == frame_base + chat_pre,
                            ensures
                                sess.addr == sess_pre.addr,
                                sess.heartbeat == sess_pre.heartbeat,
                                sess.channel == (ChannelSet {
                                    in_chat: sess.channel.in_chat,
                                    ..sess_pre.channel
                                }),
                                sess.channel.in_chat@.len() == 0,
                                self.frame@ == frame_base + chat_pre,
                            decreases sess.channel.in_chat@.len(),
                        {
                            match sess.channel.recv_chat() {
                                Some(c) => {
                                    let ghost fr = self.frame@;
                                    let ghost rem = sess.channel.in_chat@;
                                    self.frame.push(c);
                                    proof {
                                        assert(fr + (seq![c] + rem) =~= (fr + seq![c]) + rem);
                                        assert(fr.push(c) =~= fr + seq![c]);
                                    }
                                },
                                None => {
                                    proof {
                                        assert(self.frame@ + sess.channel.in_chat@
                                            =~= self.frame@);
                                    }
                                    break;
                                },
                            }
                        }
                    },
                    None => {},
                },
                None => {},
            }
            proof {
                assert(pre.take(i + 1 as int).drop_last() =~= pre.take(i as int));
                assert(pre.take(i + 1 as int).last() == pre[i as int]);
                if slot_client(slot_pre) {
                    assert(self.frame@ =~= spec_pending_chats(pre.take(i + 1 as int)));
                } else {
                    assert(self.frame@ + slot_chats(slot_pre) =~= self.frame@);
                    assert(self.frame@ =~= spec_pending_chats(pre.take(i + 1 as int)));
                }
                assert(slot_drained(pre[i as int], ecs.slots@[i as int]));
                if slot_client(pre[i as int]) {
                    let ca = slot_channel(pre[i as int]);
                    let cb = slot_channel(ecs.slots@[i as int]);
                    assert forall|k: MsgKind| #[trigger] spec_out(cb, k) == spec_out(
                        ca,
                        k,
                    ) by {}
                    assert(cb.wf());
                }
            }
            i = i + 1;
        }
        proof {
            assert(pre.take(n as int) =~= pre);
        }
    }

    /// Queues the whole batch on one peer's chat channel, oldest first;
    /// each line lands or is refused per the reliable send contract.
    pub fn sync(&self, session: &mut Session)
        requires
            old(session).channel.wf(),
        ensures
            final(session).channel.wf(),
            final(session).addr == old(session).addr,
            final(session).heartbeat == old(session).heartbeat,
            outs_equal_except(old(session).channel, final(session).channel, MsgKind::Chat),
            final(session).channel.out_chat@.map(|i: int, m: Message| m@)
                == spec_fold_sends_view(
                old(session).channel.out_chat@.map(|i: int, m: Message| m@),
                old(session).channel.torn_down,
                self.frame@.map(|i: int, c: Chat| MsgView::Chat(c@)),
            ),
    {
        let ghost all = self.frame@.map(|i: int, c: Chat| MsgView::Chat(c@));
        let ghost mv = |i: int, m: Message| m@;
        let ghost pre = *session;
        proof {
            assert(all.skip(0) =~= all);
        }
        let n = self.frame.len();
        let mut i: usize = 0;
        while i < n
            invariant
                i <= n,
                n == self.frame@.len(),
                all == self.frame@.map(|i2: int, c: Chat| MsgView::Chat(c@)),
                mv == (|i2: int, m: Message| m@),
                session.channel.wf(),
                session.addr == pre.addr,
                session.heartbeat == pre.heartbeat,
                outs_equal_except(pre.channel, session.channel, MsgKind::Chat),
                spec_fold_sends_view(
                    pre.channel.out_chat@.map(mv),
                    pre.channel.torn_down,
                    all,
                ) == spec_fold_sends_view(
                    session.channel.out_chat@.map(mv),
                    pre.channel.torn_down,
                    all.skip(i as int),
                ),
            decreases n - i,
        {
            let ghost q_before = session.channel.out_chat@;
            let c = Chat(self.frame[i].0.clone());
            let m = Message::Chat(c);
            proof {
                assert(m@ == all[i as int]);
            }
            send_or_err(&mut session.channel, m);
            proof {
                let q_after = session.channel.out_chat@;
                assert(all.skip(i as int)[0] == all[i as int]);
                assert(all.skip(i as int).skip(1) =~= all.skip(i + 1 as int));
                if q_before.len() >= MESSAGE_BUFFER_SIZE {
                    assert(q_before.skip(1).push(m).map(mv) =~= q_before.map(mv).skip(1).push(
                        m@,
                    ));
                } else {
                    assert(q_before.push(m).map(mv) =~= q_before.map(mv).push(m@));
                }
            }
            i = i + 1;
        }
        proof {
            assert(all.skip(n as int) =~= Seq::<MsgView>::empty());
        }
    }
}

/// Whether this slot's peer counts as timed out this tick: a client with
/// no pending heartbeat whose last one is older than the threshold.
pub open spec fn spec_timed_out(s: Slot, now_ms: u64) -> bool {
    &&& slot_client(s)
    &&& slot_channel(s).in_heartbeat@.len() == 0
    &&& now_ms > s.data.unwrap().session.unwrap().heartbeat + HEARTBEAT_TIMEOUT_MS
}

/// The ids of the peers timing out this tick, in slot order.
pub open spec fn spec_stale_ids(s: Seq<Slot>, now_ms: u64) -> Seq<EntityId>
    decreases s.len(),
{
    if s.len() == 0 {
        Seq::empty()
    } else {
        spec_stale_ids(s.drop_last(), now_ms) + if spec_timed_out(s.last(), now_ms) {
            seq![
                EntityId { index: (s.len() - 1) as u32, generation: s.last().generation },
            ]
        } else {
            Seq::empty()
        }
    }
}

/// The despawn broadcasts of this tick, one per timed-out peer, in slot
/// order.
pub open spec fn spec_despawns(s: Seq<Slot>, now_ms: u64) -> Seq<Message> {
    spec_stale_ids(s, now_ms).map(
        |i: int, id: EntityId| Message::EntEvent(EntEvent::Despawn(spec_to_bits(id))),
    )
}

/// The join snapshot of a store: one entry per live slot, in slot order,
/// skipping the slot at `skip`.
pub open spec fn spec_snapshot(s: Seq<Slot>, skip: int) -> Seq<(u64, Pos, Art)>
    decreases s.len(),
{
    if s.len() == 0 {
        Seq::empty()
    } else {
        spec_snapshot(s.drop_last(), skip) + if slot_live(s.last()) && s.len() - 1 != skip {
            seq![
                (
                    spec_to_bits(
                        EntityId {
                            index: (s.len() - 1) as u32,
                            generation: s.last().generation,
                        },
                    ),
                    s.last().data.unwrap().pos,
                    s.last().data.unwrap().art,
                ),
            ]
        } else {
            Seq::empty()
        }
    }
}

/// One independent world shard: its name, its entity store, the delta
/// tracker, the tick counter, and the scratch list of peers to evict at
/// the end of the current tick.
#[derive(Debug)]
pub struct World {
    pub name: String,
    pub ecs: Ecs,
    pub last_pos_tracker: LastPosTracker,
    pub tick: u32,
    /// Peers found timed out this tick, removed after the iteration that
    /// found them: collect first, mutate after.
    pub timed_out: Vec<EntityId>,
}

impl World {
    /// Client channels of the store well-formed.
    pub open spec fn wf(self) -> bool {
        self.ecs.wf()
    }

    /// A fresh, empty, unnamed-tick shard.
    pub fn new(name: String) -> (r: World)
        ensures
            r.wf(),
            r.name@ == name@,
            r.ecs.slots@.len() == 0,
            r.tick == 0,
    {
        World {
            name,
            ecs: Ecs::new(),
            last_pos_tracker: LastPosTracker::new(),
            tick: 0,
            timed_out: Vec::new(),
        }
    }

    /// Whether any peer is connected.
    pub fn is_occupied(&self) -> (r: bool)
        ensures
            r == (spec_client_count(self.ecs.slots@) > 0),
    {
        self.ecs.client_count() > 0
    }

    /// Empties the entity store without telling anybody. Safe only while
    /// no peer is connected.
    pub fn clear(&mut self)
        ensures
            final(self).wf(),
            final(self).name@ == old(self).name@,
            final(self).tick == old(self).tick,
            final(self).ecs.slots@.len() == old(self).ecs.slots@.len(),
            forall|i: int| 0 <= i < final(self).ecs.slots@.len() ==> !slot_live(
                #[trigger] final(self).ecs.slots@[i],
            ),
    {
        self.ecs.clear();
    }
}

/// A broadcast leaves the join snapshot unchanged: liveness, generations,
/// positions and looks all survive it, and a newly filled slot at `skip`
/// is not part of the snapshot.
proof fn lemma_snapshot_notified(pre: Seq<Slot>, post: Seq<Slot>, skip: int, m: Message)
    requires
        pre.len() == post.len(),
        forall|j: int| 0 <= j < pre.len() && j != skip ==> slot_notified(
            pre[j],
            #[trigger] post[j],
            m,
        ),
        0 <= skip < pre.len() ==> !slot_live(pre[skip]),
    ensures
        spec_snapshot(post, skip) == spec_snapshot(pre, -1),
    decreases pre.len(),
{
    if pre.len() > 0 {
        lemma_snapshot_notified(pre.drop_last(), post.drop_last(), skip, m);
        let j = pre.len() - 1;
        assert(pre.drop_last().len() == j);
        if j != skip {
            assert(slot_notified(pre[j], post[j], m));
            assert(slot_live(post[j]) == slot_live(pre[j]));
            if slot_live(pre[j]) {
                assert(post[j].generation == pre[j].generation);
                assert(post[j].data.unwrap().pos == pre[j].data.unwrap().pos);
                assert(post[j].data.unwrap().art == pre[j].data.unwrap().art);
            }
        }
    }
}

impl World {
    /// Adds a peer's island to this shard: every peer already present is
    /// told of the spawn (the joiner is not), and the joiner alone then
    /// receives one join snapshot carrying every other entity, its own
    /// id, the shard's name and the current tick.
    pub fn connect(&mut self, island: PlayerIsland) -> (r: EntityId)
        requires
            old(self).wf(),
            old(self).ecs.slots@.len() < u32::MAX,
            island.session.channel.wf(),
        ensures
            final(self).wf(),
            final(self).name@ == old(self).name@,
            final(self).tick == old(self).tick,
            (r.index as int) <= old(self).ecs.slots@.len(),
            final(self).ecs.slots@.len() == if (r.index as int) == old(self).ecs.slots@.len() {
                old(self).ecs.slots@.len() as int + 1
            } else {
                old(self).ecs.slots@.len() as int
            },
            slot_live(final(self).ecs.slots@[r.index as int]),
            (r.index as int) < old(self).ecs.slots@.len() ==> !slot_live(
                old(self).ecs.slots@[r.index as int],
            ),
            forall|j: int| 0 <= j < r.index ==> slot_live(#[trigger] old(self).ecs.slots@[j]),
            ({
                let row = final(self).ecs.slots@[r.index as int];
                let d = row.data.unwrap();
                let ch0 = island.session.channel;
                let ch1 = d.session.unwrap().channel;
                &&& row.generation == r.generation
                &&& d.pos == island.pos
                &&& d.art == island.art
                &&& d.session is Some
                &&& d.session.unwrap().addr == island.session.addr
                &&& d.session.unwrap().heartbeat == island.session.heartbeat
                &&& outs_equal_except(ch0, ch1, MsgKind::WorldJoin)
                &&& ch1.out_join@.map(|i: int, m: Message| m@) == spec_fold_sends_view(
                    ch0.out_join@.map(|i: int, m: Message| m@),
                    ch0.torn_down,
                    seq![
                        MsgView::WorldJoin(
                            spec_snapshot(old(self).ecs.slots@, -1),
                            spec_to_bits(r),
                            old(self).name@,
                            old(self).tick,
                        ),
                    ],
                )
            }),
            forall|j: int| 0 <= j < old(self).ecs.slots@.len() && j != r.index
                ==> slot_notified(
                old(self).ecs.slots@[j],
                #[trigger] final(self).ecs.slots@[j],
                Message::EntEvent(EntEvent::Spawn(spec_to_bits(r), island.pos, island.art)),
            ),
    {
        let ghost pre = self.ecs.slots@;
        let ghost ch0 = island.session.channel;
        let pos = island.pos;
        let art = island.art;
        let r = self.ecs.add_island(island);
        let ghost post = self.ecs.slots@;
        proof {
            lemma_snapshot_notified(
                pre,
                if (r.index as int) < pre.len() {
                    post
                } else {
                    post.drop_last()
                },
                r.index as int,
                Message::EntEvent(EntEvent::Spawn(spec_to_bits(r), pos, art)),
            );
            if (r.index as int) == pre.len() {
                assert(post.drop_last() =~= post.take(pre.len() as int));
                assert(spec_snapshot(post, r.index as int) == spec_snapshot(
                    post.drop_last(),
                    r.index as int,
                ));
            }
        }
        let n = self.ecs.slots.len();
        let mut islands: Vec<(u64, Pos, Art)> = Vec::new();
        let mut j: usize = 0;
        while j < n
            invariant
                j <= n,
                n == self.ecs.slots@.len(),
                self.ecs.slots@ == post,
                islands@ == spec_snapshot(post.take(j as int), r.index as int),
            decreases n - j,
        {
            let wanted = j != r.index as usize && self.ecs.slots[j].data.is_some();
            if wanted {
                let generation = self.ecs.slots[j].generation;
                let (p, a) = match &self.ecs.slots[j].data {
                    Some(e) => (e.pos, e.art),
                    None => (Pos { x: 0, y: 0 }, Art::Island),
                };
                let id = EntityId { index: j as u32, generation };
                islands.push((id.to_bits(), p, a));
            }
            proof {
                assert(post.take(j + 1 as int).drop_last() =~= post.take(j as int));
                assert(post.take(j + 1 as int).last() == post[j as int]);
                assert(islands@ =~= spec_snapshot(post.take(j + 1 as int), r.index as int));
            }
            j = j + 1;
        }
        proof {
            assert(post.take(n as int) =~= post);
        }
        let msg = Message::WorldJoin(
            WorldJoin {
                islands,
                your_island: r.to_bits(),
                world_name: self.name.clone(),
                tick: self.tick,
            },
        );
        let ghost mv = |i: int, m: Message| m@;
        let ghost joinv = MsgView::WorldJoin(
            spec_snapshot(pre, -1),
            spec_to_bits(r),
            self.name@,
            self.tick,
        );
        proof {
            assert(msg@ == joinv);
        }
        let index = r.index as usize;
        let ghost q0 = slot_channel(post[index as int]).out_join@;
        let s = &mut self.ecs.slots[index];
        match &mut s.data {
            Some(e) => match &mut e.session {
                Some(sess) => {
                    send_or_err(&mut sess.channel, msg);
                },
                None => {},
            },
            None => {},
        }
        proof {
            assert(seq![joinv].skip(1) =~= Seq::<MsgView>::empty());
            if q0.len() >= MESSAGE_BUFFER_SIZE {
                assert(q0.skip(1).push(msg).map(mv) =~= q0.map(mv).skip(1).push(msg@));
            } else {
                assert(q0.push(msg).map(mv) =~= q0.map(mv).push(msg@));
            }
            assert(slot_channel(post[index as int]) == ch0);
            assert(q0 == ch0.out_join@);
            let rowf = self.ecs.slots@[index as int];
            assert(rowf.data is Some);
            let df = rowf.data.unwrap();
            assert(df.session is Some);
            let ch1 = df.session.unwrap().channel;
            assert(rowf.generation == r.generation);
            assert(df.pos == pos);
            assert(outs_equal_except(ch0, ch1, MsgKind::WorldJoin));
            assert(sent_to(ch0, ch1, msg));
            let q0v = ch0.out_join@.map(mv);
            assert(seq![joinv][0] == joinv);
            assert(q0v.len() == q0.len());
            assert(spec_send_accepts(ch0, msg) == (!ch0.torn_down && (msg_view_wf(joinv)
                && spec_encode(joinv).len() <= MAX_MESSAGE_LEN && q0v.len()
                < MESSAGE_BUFFER_SIZE)));
            if spec_send_accepts(ch0, msg) {
                assert(spec_out(ch1, MsgKind::WorldJoin) == spec_sent_queue(q0, msg));
                assert(q0.len() < MESSAGE_BUFFER_SIZE);
                assert(ch1.out_join@ == q0.push(msg));
                assert(ch1.out_join@.map(mv) =~= q0v.push(joinv));
                assert(spec_sent_queue_view(q0v, joinv) == q0v.push(joinv));
                assert(spec_fold_sends_view(q0v.push(joinv), ch0.torn_down, seq![
                    joinv].skip(1)) == q0v.push(joinv));
            } else {
                assert(spec_out(ch1, MsgKind::WorldJoin) == q0);
                assert(spec_fold_sends_view(q0v, ch0.torn_down, seq![joinv].skip(1))
                    == q0v);
            }
            assert(ch1.out_join@.map(mv) == spec_fold_sends_view(
                ch0.out_join@.map(mv),
                ch0.torn_down,
                seq![joinv],
            ));
        }
        r
    }
}

/// How a surviving client slot looks after its per-tick service: every
/// pending heartbeat consumed, the tick's delta updates and the chat batch
/// queued on its channel, and nothing else moved.
pub open spec fn slot_ticked(
    a: Slot,
    b: Slot,
    frame: Seq<Chat>,
    moves: Seq<Move>,
    now_ms: u64,
) -> bool {
    if slot_client(a) {
        let ca = slot_channel(a);
        let cb = slot_channel(b);
        &&& b.generation == a.generation
        &&& b.data is Some
        &&& b.data.unwrap().pos == a.data.unwrap().pos
        &&& b.data.unwrap().art == a.data.unwrap().art
        &&& b.data.unwrap().last_pos == a.data.unwrap().last_pos
        &&& b.data.unwrap().session is Some
        &&& b.data.unwrap().session.unwrap().addr == a.data.unwrap().session.unwrap().addr
        &&& b.data.unwrap().session.unwrap().heartbeat == if ca.in_heartbeat@.len() > 0 {
            now_ms
        } else {
            a.data.unwrap().session.unwrap().heartbeat
        }
        &&& cb.torn_down == ca.torn_down
        &&& cb.in_heartbeat@.len() == 0
        &&& cb.in_chat@ == ca.in_chat@
        &&& cb.in_move@ == ca.in_move@
        &&& cb.in_ent@ == ca.in_ent@
        &&& cb.in_join@ == ca.in_join@
        &&& cb.out_heartbeat@ == ca.out_heartbeat@
        &&& cb.out_ent@ == ca.out_ent@
        &&& cb.out_join@ == ca.out_join@
        &&& cb.out_move@ == spec_fold_sends(
            ca.out_move@,
            ca.torn_down,
            moves.map(|i: int, m: Move| Message::Move(m)),
        )
        &&& cb.out_chat@.map(|i: int, m: Message| m@) == spec_fold_sends_view(
            ca.out_chat@.map(|i: int, m: Message| m@),
            ca.torn_down,
            frame.map(|i: int, c: Chat| MsgView::Chat(c@)),
        )
    } else {
        b == a
    }
}

/// The timed-out ids of a store name strictly increasing slot indices, each
/// a stale client slot with a matching generation.
proof fn lemma_stale_ids(s: Seq<Slot>, now_ms: u64)
    requires
        s.len() < u32::MAX,
    ensures
        ({
            let t = spec_stale_ids(s, now_ms);
            &&& forall|l: int| 0 <= l < t.len() ==> (#[trigger] t[l].index as int) < s.len()
                && spec_timed_out(s[t[l].index as int], now_ms) && s[t[l].index as int].generation
                == t[l].generation
            &&& forall|l1: int, l2: int| 0 <= l1 < l2 < t.len() ==> t[l1].index < t[l2].index
            &&& forall|j: int| 0 <= j < s.len() && spec_timed_out(#[trigger] s[j], now_ms)
                ==> exists|l: int| 0 <= l < t.len() && t[l] == (EntityId {
                    index: j as u32,
                    generation: s[j].generation,
                })
        }),
    decreases s.len(),
{
    if s.len() > 0 {
        lemma_stale_ids(s.drop_last(), now_ms);
        let t0 = spec_stale_ids(s.drop_last(), now_ms);
        let t = spec_stale_ids(s, now_ms);
        if !spec_timed_out(s.last(), now_ms) {
            assert(t =~= t0);
        }
        assert forall|l: int|
            0 <= l < t.len() implies ((#[trigger] t[l].index as int) < s.len()
            && spec_timed_out(s[t[l].index as int], now_ms) && s[t[l].index as int].generation
            == t[l].generation) by {
            if l < t0.len() {
                assert(t[l] == t0[l]);
                assert((t0[l].index as int) < s.drop_last().len());
                assert(s.drop_last()[t0[l].index as int] == s[t0[l].index as int]);
            } else {
                assert(spec_timed_out(s.last(), now_ms));
                assert(t[l] == EntityId {
                    index: (s.len() - 1) as u32,
                    generation: s.last().generation,
                });
            }
        }
        assert forall|l1: int, l2: int|
            0 <= l1 < l2 < t.len() implies t[l1].index < t[l2].index by {
            if l2 >= t0.len() {
                assert(l1 < t0.len());
                assert(t[l1] == t0[l1]);
                assert((t0[l1].index as int) < s.drop_last().len());
                assert((t[l2].index as int) == s.len() - 1);
            }
        }
        assert forall|j: int|
            0 <= j < s.len() && spec_timed_out(#[trigger] s[j], now_ms) implies exists|l: int|
            0 <= l < t.len() && t[l] == (EntityId {
                index: j as u32,
                generation: s[j].generation,
            }) by {
            if j < s.len() - 1 {
                assert(s.drop_last()[j] == s[j]);
                assert(spec_timed_out(s.drop_last()[j], now_ms));
                let l0 = choose|l: int|
                    0 <= l < t0.len() && t0[l] == (EntityId {
                        index: j as u32,
                        generation: s.drop_last()[j].generation,
                    });
                assert(t[l0] == t0[l0]);
            } else {
                assert(spec_timed_out(s.last(), now_ms));
                assert(t[t.len() - 1] == (EntityId {
                    index: j as u32,
                    generation: s[j].generation,
                }));
            }
        }
    }
}

/// The fate of one slot over a whole tick, relative to the store and chat
/// batch at the tick's start: a decoration or empty slot is merely
/// position-tracked; a timed-out client is gone, its slot's generation
/// moved on; a surviving client was serviced — heartbeats consumed, the
/// tick's deltas, the chat batch and every despawn of the tick queued.
pub open spec fn slot_updated(
    a: Slot,
    b: Slot,
    all: Seq<Slot>,
    frame: Seq<Chat>,
    tick: u32,
    now_ms: u64,
) -> bool {
    if !slot_client(a) {
        slot_tracked(a, b)
    } else if spec_timed_out(a, now_ms) {
        b == Slot { generation: spec_next_gen(a.generation), data: None }
    } else {
        let moves = spec_moves(all, tick);
        let ca = slot_channel(a);
        let cb = slot_channel(b);
        &&& slot_client(b)
        &&& b.generation == a.generation
        &&& b.data.unwrap().pos == a.data.unwrap().pos
        &&& b.data.unwrap().art == a.data.unwrap().art
        &&& b.data.unwrap().last_pos == Some(a.data.unwrap().pos)
        &&& b.data.unwrap().session.unwrap().addr == a.data.unwrap().session.unwrap().addr
        &&& b.data.unwrap().session.unwrap().heartbeat == if ca.in_heartbeat@.len() > 0 {
            now_ms
        } else {
            a.data.unwrap().session.unwrap().heartbeat
        }
        &&& cb.torn_down == ca.torn_down
        &&& cb.in_heartbeat@.len() == 0
        &&& cb.in_chat@ == ca.in_chat@
        &&& cb.in_move@ == ca.in_move@
        &&& cb.in_ent@ == ca.in_ent@
        &&& cb.in_join@ == ca.in_join@
        &&& cb.out_heartbeat@ == ca.out_heartbeat@
        &&& cb.out_join@ == ca.out_join@
        &&& cb.out_move@ == spec_fold_sends(
            ca.out_move@,
            ca.torn_down,
            moves.map(|i2: int, m: Move| Message::Move(m)),
        )
        &&& cb.out_chat@.map(|i2: int, m: Message| m@) == spec_fold_sends_view(
            ca.out_chat@.map(|i2: int, m: Message| m@),
            ca.torn_down,
            frame.map(|i2: int, c: Chat| MsgView::Chat(c@)),
        )
        &&& cb.out_ent@ == spec_fold_sends(ca.out_ent@, ca.torn_down, spec_despawns(all, now_ms))
    }
}

impl World {
    /// Advances the shard one tick: computes the delta updates, services
    /// every peer (heartbeats consumed, deltas and the chat batch queued),
    /// and finally evicts every peer that timed out, telling each
    /// remaining peer to drop the evicted entity — eviction is deferred to
    /// the end so the store is never mutated while being iterated.
    pub fn update(&mut self, chat: &ChatDispatcher, now_ms: u64)
        requires
            old(self).wf(),
            old(self).tick < u32::MAX,
            old(self).ecs.slots@.len() < u32::MAX,
        ensures
            final(self).wf(),
            final(self).tick == old(self).tick + 1,
            final(self).name@ == old(self).name@,
            final(self).ecs.slots@.len() == old(self).ecs.slots@.len(),
            final(self).last_pos_tracker.messages@ == spec_moves(
                old(self).ecs.slots@,
                (old(self).tick + 1) as u32,
            ),
            forall|i: int| 0 <= i < old(self).ecs.slots@.len() ==> slot_updated(
                old(self).ecs.slots@[i],
                #[trigger] final(self).ecs.slots@[i],
                old(self).ecs.slots@,
                chat.frame@,
                (old(self).tick + 1) as u32,
                now_ms,
            ),
    {
        let ghost s0 = self.ecs.slots@;
        let new_tick = self.tick + 1;
        self.tick = new_tick;
        self.last_pos_tracker.track(&mut self.ecs, new_tick);
        let ghost s1 = self.ecs.slots@;
        let ghost moves = self.last_pos_tracker.messages@;
        let ghost name0 = self.name;
        self.timed_out.clear();
        let n = self.ecs.slots.len();
        let mut i: usize = 0;
        while i < n
            invariant
                i <= n,
                n == self.ecs.slots@.len(),
                n == s1.len(),
                n == s0.len(),
                n < u32::MAX,
                slots_wf(self.ecs.slots@),
                self.tick == new_tick,
                self.name == name0,
                self.last_pos_tracker.messages@ == moves,
                forall|j: int| 0 <= j < n ==> slot_tracked(s0[j], #[trigger] s1[j]),
                forall|j: int| i <= j < n ==> #[trigger] self.ecs.slots@[j] == s1[j],
                forall|j: int| 0 <= j < i ==> slot_ticked(
                    s1[j],
                    #[trigger] self.ecs.slots@[j],
                    chat.frame@,
                    moves,
                    now_ms,
                ),
                self.timed_out@ == spec_stale_ids(s0.take(i as int), now_ms),
            decreases n - i,
        {
            let generation = self.ecs.slots[i].generation;
            let ghost before = self.ecs.slots@[i as int];
            let s = &mut self.ecs.slots[i];
            match &mut s.data {
                Some(e) => match &mut e.session {
                    Some(sess) => {
                        let ghost ch_a = sess.channel;
                        let timed = sess.heartbeat(now_ms);
                        proof {
                            assert(slot_client(before));
                            assert(slot_channel(before).wf());
                            assert forall|kk: MsgKind| queue_wf(
                                #[trigger] spec_out(sess.channel, kk),
                                kk,
                            ) by {
                                assert(spec_out(sess.channel, kk) == spec_out(
                                    slot_channel(before),
                                    kk,
                                ));
                            }
                        }
                        if timed {
                            self.timed_out.push(EntityId { index: i as u32, generation });
                        }
                        let ghost ch_mid = sess.channel;
                        self.last_pos_tracker.sync(sess);
                        let ghost ch_mid2 = sess.channel;
                        chat.sync(sess);
                        proof {
                            let cb = sess.channel;
                            assert(spec_out(ch_mid, MsgKind::Heartbeat) == spec_out(
                                ch_a,
                                MsgKind::Heartbeat,
                            ));
                            assert(spec_out(ch_mid, MsgKind::EntEvent) == spec_out(
                                ch_a,
                                MsgKind::EntEvent,
                            ));
                            assert(spec_out(ch_mid, MsgKind::WorldJoin) == spec_out(
                                ch_a,
                                MsgKind::WorldJoin,
                            ));
                            assert(spec_out(ch_mid, MsgKind::Move) == spec_out(
                                ch_a,
                                MsgKind::Move,
                            ));
                            assert(spec_out(ch_mid, MsgKind::Chat) == spec_out(
                                ch_a,
                                MsgKind::Chat,
                            ));
                            assert(spec_out(ch_mid2, MsgKind::Heartbeat) == spec_out(
                                ch_mid,
                                MsgKind::Heartbeat,
                            ));
                            assert(spec_out(ch_mid2, MsgKind::EntEvent) == spec_out(
                                ch_mid,
                                MsgKind::EntEvent,
                            ));
                            assert(spec_out(ch_mid2, MsgKind::WorldJoin) == spec_out(
                                ch_mid,
                                MsgKind::WorldJoin,
                            ));
                            assert(spec_out(ch_mid2, MsgKind::Chat) == spec_out(
                                ch_mid,
                                MsgKind::Chat,
                            ));
                            assert(spec_out(cb, MsgKind::Heartbeat) == spec_out(
                                ch_mid2,
                                MsgKind::Heartbeat,
                            ));
                            assert(spec_out(cb, MsgKind::EntEvent) == spec_out(
                                ch_mid2,
                                MsgKind::EntEvent,
                            ));
                            assert(spec_out(cb, MsgKind::WorldJoin) == spec_out(
                                ch_mid2,
                                MsgKind::WorldJoin,
                            ));
                            assert(spec_out(cb, MsgKind::Move) == spec_out(
                                ch_mid2,
                                MsgKind::Move,
                            ));
                            assert(ch_mid.torn_down == ch_a.torn_down);
                            assert(ch_mid2.torn_down == ch_mid.torn_down);
                            assert(cb.torn_down == ch_mid2.torn_down);
                        }
                    },
                    None => {},
                },
                None => {},
            }
            proof {
                assert(s0.take(i + 1 as int).drop_last() =~= s0.take(i as int));
                assert(s0.take(i + 1 as int).last() == s0[i as int]);
                assert(slot_tracked(s0[i as int], before));
                if slot_client(before) {
                    assert(spec_timed_out(s0[i as int], now_ms) == spec_timed_out(
                        before,
                        now_ms,
                    ));
                    let aft = self.ecs.slots@[i as int];
                    let ca = slot_channel(before);
                    let cb = slot_channel(aft);
                    assert(aft.generation == before.generation);
                    assert(aft.data is Some);
                    assert(aft.data.unwrap().session is Some);
                    assert(cb.in_heartbeat@.len() == 0);
                    assert(cb.torn_down == ca.torn_down);
                    assert(cb.in_chat@ == ca.in_chat@);
                    assert(cb.in_move@ == ca.in_move@);
                    assert(cb.out_heartbeat@ == ca.out_heartbeat@);
                    assert(cb.out_ent@ == ca.out_ent@);
                    assert(cb.out_join@ == ca.out_join@);
                    assert(cb.out_move@ == spec_fold_sends(
                        ca.out_move@,
                        ca.torn_down,
                        moves.map(|i2: int, m: Move| Message::Move(m)),
                    ));
                    assert(cb.out_chat@.map(|i2: int, m: Message| m@) == spec_fold_sends_view(
                        ca.out_chat@.map(|i2: int, m: Message| m@),
                        ca.torn_down,
                        chat.frame@.map(|i2: int, c: Chat| MsgView::Chat(c@)),
                    ));
                    assert(slot_ticked(
                        before,
                        self.ecs.slots@[i as int],
                        chat.frame@,
                        moves,
                        now_ms,
                    ));
                } else {
                    assert(self.ecs.slots@[i as int] == before);
                }
                assert(self.timed_out@ =~= spec_stale_ids(s0.take(i + 1 as int), now_ms));
            }
            i = i + 1;
        }
        proof {
            assert(s0.take(n as int) =~= s0);
        }
        let ghost s2 = self.ecs.slots@;
        let ghost stale = spec_stale_ids(s0, now_ms);
        let ghost despawns = spec_despawns(s0, now_ms);
        proof {
            lemma_stale_ids(s0, now_ms);
            assert(despawns.skip(0) =~= despawns);
        }
        let tn = self.timed_out.len();
        let mut k: usize = 0;
        while k < tn
            invariant
                k <= tn,
                tn == stale.len(),
                stale == spec_stale_ids(s0, now_ms),
                self.timed_out@ == stale,
                n == self.ecs.slots@.len(),
                n == s2.len(),
                n == s0.len(),
                n < u32::MAX,
                slots_wf(self.ecs.slots@),
                self.tick == new_tick,
                self.name == name0,
                self.last_pos_tracker.messages@ == moves,
                despawns == spec_despawns(s0, now_ms),
                forall|l: int| 0 <= l < stale.len() ==> (#[trigger] stale[l].index as int) < n
                    && spec_timed_out(s0[stale[l].index as int], now_ms)
                    && s0[stale[l].index as int].generation == stale[l].generation,
                forall|l1: int, l2: int| 0 <= l1 < l2 < stale.len() ==> stale[l1].index
                    < stale[l2].index,
                forall|j: int| 0 <= j < n ==> slot_tracked(s0[j], #[trigger] s1[j]),
                forall|j: int| 0 <= j < n ==> slot_ticked(
                    s1[j],
                    #[trigger] s2[j],
                    chat.frame@,
                    moves,
                    now_ms,
                ),
                forall|l: int| 0 <= l < k ==> #[trigger] self.ecs.slots@[stale[l].index as int]
                    == (Slot {
                    generation: spec_next_gen(stale[l].generation),
                    data: None,
                }),
                forall|l: int| k <= l < stale.len() ==> {
                    let b = #[trigger] self.ecs.slots@[stale[l].index as int];
                    &&& slot_client(b)
                    &&& b.generation == stale[l].generation
                },
                forall|j: int| 0 <= j < n && !slot_client(s2[j]) ==> #[trigger] self.ecs.slots@[j]
                    == s2[j],
                forall|j: int| 0 <= j < n && slot_client(s2[j]) && !spec_timed_out(
                    s0[j],
                    now_ms,
                ) ==> {
                    let b = #[trigger] self.ecs.slots@[j];
                    let c2 = slot_channel(s2[j]);
                    let cb = slot_channel(b);
                    &&& slot_client(b)
                    &&& b.generation == s2[j].generation
                    &&& b.data.unwrap().pos == s2[j].data.unwrap().pos
                    &&& b.data.unwrap().art == s2[j].data.unwrap().art
                    &&& b.data.unwrap().last_pos == s2[j].data.unwrap().last_pos
                    &&& b.data.unwrap().session.unwrap().addr
                        == s2[j].data.unwrap().session.unwrap().addr
                    &&& b.data.unwrap().session.unwrap().heartbeat
                        == s2[j].data.unwrap().session.unwrap().heartbeat
                    &&& outs_equal_except(c2, cb, MsgKind::EntEvent)
                    &&& spec_fold_sends(c2.out_ent@, c2.torn_down, despawns)
                        == spec_fold_sends(cb.out_ent@, c2.torn_down, despawns.skip(k as int))
                },
            decreases tn - k,
        {
            let ent = self.timed_out[k];
            proof {
                assert(stale[k as int] == ent);
                assert(spec_timed_out(s0[ent.index as int], now_ms));
                assert(slot_client(self.ecs.slots@[stale[k as int].index as int]));
                assert(self.ecs.slots@[ent.index as int].generation == ent.generation);
                assert(spec_id_live(self.ecs.slots@, ent));
            }
            let ghost slots_before = self.ecs.slots@;
            let res = self.ecs.remove_island(ent);
            proof {
                assert(res is Ok);
                assert(despawns[k as int] == Message::EntEvent(
                    EntEvent::Despawn(spec_to_bits(ent)),
                ));
                assert(despawns.skip(k as int)[0] == despawns[k as int]);
                assert(despawns.skip(k as int).skip(1) =~= despawns.skip(k + 1 as int));
            }
            k = k + 1;
        }
        proof {
            assert(despawns.skip(tn as int) =~= Seq::<Message>::empty());
            assert forall|j: int| 0 <= j < n implies slot_updated(
                s0[j],
                #[trigger] self.ecs.slots@[j],
                s0,
                chat.frame@,
                new_tick,
                now_ms,
            ) by {
                let a = s0[j];
                let b = self.ecs.slots@[j];
                assert(slot_tracked(a, s1[j]));
                assert(slot_ticked(s1[j], s2[j], chat.frame@, moves, now_ms));
                if !slot_client(a) {
                    assert(!slot_client(s1[j]));
                    assert(s2[j] == s1[j]);
                    assert(!slot_client(s2[j]));
                    assert(b == s2[j]);
                } else if spec_timed_out(a, now_ms) {
                    let l = choose|l: int|
                        0 <= l < stale.len() && stale[l] == (EntityId {
                            index: j as u32,
                            generation: a.generation,
                        });
                    assert(self.ecs.slots@[stale[l].index as int] == (Slot {
                        generation: spec_next_gen(stale[l].generation),
                        data: None,
                    }));
                    assert((stale[l].index as int) == j);
                } else {
                    assert(slot_client(s2[j]));
                    let ca = slot_channel(a);
                    let c1 = slot_channel(s1[j]);
                    let c2 = slot_channel(s2[j]);
                    let cb = slot_channel(b);
                    assert(c1 == ca);
                    assert(spec_out(cb, MsgKind::Heartbeat) == spec_out(
                        c2,
                        MsgKind::Heartbeat,
                    ));
                    assert(spec_out(cb, MsgKind::Move) == spec_out(c2, MsgKind::Move));
                    assert(spec_out(cb, MsgKind::Chat) == spec_out(c2, MsgKind::Chat));
                    assert(spec_out(cb, MsgKind::WorldJoin) == spec_out(
                        c2,
                        MsgKind::WorldJoin,
                    ));
                    assert(spec_fold_sends(
                        cb.out_ent@,
                        c2.torn_down,
                        despawns.skip(tn as int),
                    ) == cb.out_ent@);
                    assert(cb.out_ent@ == spec_fold_sends(c2.out_ent@, c2.torn_down, despawns));
                    assert(c2.out_ent@ == ca.out_ent@);
                    assert(c2.torn_down == ca.torn_down);
                }
            }
        }
    }
}

/// The raw encoding of the seed decoration's coordinate value.
pub const UNIT_COORD_BITS: u32 = 0x3F80_0000;

/// The decoration layout every starter shard begins with: one vase at the
/// unit coordinate.
pub open spec fn spec_seed_layout() -> Seq<(Pos, Art)> {
    seq![(Pos { x: UNIT_COORD_BITS, y: UNIT_COORD_BITS }, Art::Vase)]
}

/// The visible layout of a store: position and looks of every live
/// entity, in slot order.
pub open spec fn spec_layout(s: Seq<Slot>) -> Seq<(Pos, Art)>
    decreases s.len(),
{
    if s.len() == 0 {
        Seq::empty()
    } else {
        spec_layout(s.drop_last()) + if slot_live(s.last()) {
            seq![(s.last().data.unwrap().pos, s.last().data.unwrap().art)]
        } else {
            Seq::empty()
        }
    }
}

/// A store whose only live slot is the seed decoration in front carries
/// exactly the seed layout and no clients.
proof fn lemma_seed_layout(s: Seq<Slot>)
    requires
        s.len() > 0,
        slot_live(s[0]),
        s[0].data.unwrap().pos == (Pos { x: UNIT_COORD_BITS, y: UNIT_COORD_BITS }),
        s[0].data.unwrap().art == Art::Vase,
        s[0].data.unwrap().session is None,
        forall|j: int| 1 <= j < s.len() ==> !slot_live(#[trigger] s[j]),
    ensures
        spec_layout(s) == spec_seed_layout(),
        spec_client_count(s) == 0,
    decreases s.len(),
{
    if s.len() == 1 {
        assert(spec_layout(s.drop_last()) + seq![
            (s.last().data.unwrap().pos, s.last().data.unwrap().art)] =~= spec_seed_layout());
        assert(!slot_client(s.last()));
        assert(spec_client_count(s.drop_last()) == 0);
    } else {
        assert(s.drop_last()[0] == s[0]);
        lemma_seed_layout(s.drop_last());
        assert(!slot_live(s.last()));
        assert(!slot_client(s.last()));
        assert(spec_layout(s) =~= spec_layout(s.drop_last()));
    }
}

/// Resets a shard to its deterministic starting state: everything removed
/// without notification (no peer is present to notify), then the fixed
/// decoration set seeded. Recycled or fresh, the layout comes out the
/// same.
pub fn prepare_starter(world: &mut World)
    requires
        old(world).wf(),
        old(world).ecs.slots@.len() < u32::MAX,
    ensures
        final(world).wf(),
        final(world).name@ == old(world).name@,
        final(world).tick == old(world).tick,
        spec_layout(final(world).ecs.slots@) == spec_seed_layout(),
        spec_client_count(final(world).ecs.slots@) == 0,
        final(world).ecs.slots@.len() == if old(world).ecs.slots@.len() == 0 {
            1int
        } else {
            old(world).ecs.slots@.len() as int
        },
        final(world).ecs.slots@.len() >= 1,
        slot_live(final(world).ecs.slots@[0]),
        final(world).ecs.slots@[0].data == Some(
            Entity {
                pos: Pos { x: UNIT_COORD_BITS, y: UNIT_COORD_BITS },
                art: Art::Vase,
                session: None,
                last_pos: None,
            },
        ),
        forall|j: int| 1 <= j < final(world).ecs.slots@.len() ==> !slot_live(
            #[trigger] final(world).ecs.slots@[j],
        ),
    {
    world.clear();
    let ghost cleared = world.ecs.slots@;
    let seed = Pos { x: UNIT_COORD_BITS, y: UNIT_COORD_BITS };
    let id = world.ecs.spawn_decoration(seed, Art::Vase);
    proof {
        if id.index != 0 {
            assert(slot_live(cleared[0]));
            assert(false);
        }
        lemma_seed_layout(world.ecs.slots@);
    }
}

/// The decimal digits of a value, most significant first.
pub open spec fn spec_digits(n: nat) -> Seq<char>
    decreases n,
{
    if n < 10 {
        seq![(48 + n) as char]
    } else {
        spec_digits(n / 10) + seq![(48 + n % 10) as char]
    }
}

/// Appends the decimal digits of `n`.
fn push_digits(s: &mut String, n: u32)
    ensures
        final(s)@ == old(s)@ + spec_digits(n as nat),
    decreases n,
{
    if n < 10 {
        push_char(s, (48 + n as u8) as char);
        assert(final(s)@ =~= old(s)@ + spec_digits(n as nat));
    } else {
        push_digits(s, n / 10);
        push_char(s, (48 + (n % 10) as u8) as char);
        assert((n as nat) / 10 == (n / 10) as nat);
        assert(final(s)@ =~= old(s)@ + spec_digits(n as nat));
    }
}

/// The name a freshly allocated starter shard gets, from its position in
/// the pool.
pub fn world_name_for(n: u32) -> (r: String)
    ensures
        r@ == "Starter World "@ + spec_digits(n as nat),
{
    let mut s = String::from_str("Starter World ");
    push_digits(&mut s, n);
    s
}

/// A store holding the seed decoration in front and one session-steered
/// island right behind it carries exactly the seed layout plus that
/// island, and exactly one client.
proof fn lemma_seed_plus_island(s: Seq<Slot>)
    requires
        s.len() >= 2,
        slot_live(s[0]),
        s[0].data.unwrap().pos == (Pos { x: UNIT_COORD_BITS, y: UNIT_COORD_BITS }),
        s[0].data.unwrap().art == Art::Vase,
        s[0].data.unwrap().session is None,
        slot_live(s[1]),
        s[1].data.unwrap().session is Some,
        forall|j: int| 2 <= j < s.len() ==> !slot_live(#[trigger] s[j]),
    ensures
        spec_layout(s) == spec_seed_layout().push(
            (s[1].data.unwrap().pos, s[1].data.unwrap().art),
        ),
        spec_client_count(s) == 1,
    decreases s.len(),
{
    if s.len() == 2 {
        assert(s.drop_last()[0] == s[0]);
        lemma_seed_layout(s.drop_last());
        assert(spec_layout(s) == spec_layout(s.drop_last()) + seq![
            (s.last().data.unwrap().pos, s.last().data.unwrap().art)]);
        assert(spec_layout(s) =~= spec_seed_layout().push(
            (s[1].data.unwrap().pos, s[1].data.unwrap().art),
        ));
        assert(slot_client(s.last()));
    } else {
        assert(s.drop_last()[0] == s[0]);
        assert(s.drop_last()[1] == s[1]);
        lemma_seed_plus_island(s.drop_last());
        assert(!slot_live(s.last()));
        assert(!slot_client(s.last()));
        assert(spec_layout(s) =~= spec_layout(s.drop_last()));
    }
}

/// A freshly prepared shard after one join: the seed decoration keeps
/// slot zero, the new island takes slot one, everything behind stays
/// empty — so the shard's layout is the seed set plus the island, with
/// exactly one client.
proof fn lemma_join_shape(pre: Seq<Slot>, post: Seq<Slot>, id: EntityId)
    requires
        pre.len() >= 1,
        slot_live(pre[0]),
        pre[0].data == Some(
            Entity {
                pos: Pos { x: UNIT_COORD_BITS, y: UNIT_COORD_BITS },
                art: Art::Vase,
                session: None,
                last_pos: None,
            },
        ),
        forall|j: int| 1 <= j < pre.len() ==> !slot_live(#[trigger] pre[j]),
        (id.index as int) <= pre.len(),
        post.len() as int == if (id.index as int) == pre.len() {
            pre.len() as int + 1
        } else {
            pre.len() as int
        },
        (id.index as int) < pre.len() ==> !slot_live(pre[id.index as int]),
        forall|j: int| 0 <= j < id.index ==> slot_live(#[trigger] pre[j]),
        slot_live(post[id.index as int]),
        post[id.index as int].data.unwrap().session is Some,
        post[id.index as int].data.unwrap().pos == (Pos { x: 0, y: 0 }),
        post[id.index as int].data.unwrap().art == Art::Island,
        forall|j: int| 0 <= j < pre.len() && j != id.index ==> slot_notified(
            pre[j],
            #[trigger] post[j],
            Message::EntEvent(
                EntEvent::Spawn(spec_to_bits(id), Pos { x: 0, y: 0 }, Art::Island),
            ),
        ),
    ensures
        spec_layout(post) == spec_seed_layout().push((Pos { x: 0, y: 0 }, Art::Island)),
        spec_client_count(post) == 1,
{
    if (id.index as int) < pre.len() {
        assert(id.index != 0);
        if id.index != 1 {
            assert(slot_live(pre[1]));
            assert(false);
        }
    } else {
        if pre.len() >= 2 {
            assert(slot_live(pre[1]));
            assert(false);
        }
    }
    assert(id.index == 1);
    assert(post.len() >= 2);
    assert(!slot_client(pre[0]));
    assert(slot_notified(
        pre[0],
        post[0],
        Message::EntEvent(
            EntEvent::Spawn(spec_to_bits(id), Pos { x: 0, y: 0 }, Art::Island),
        ),
    ));
    assert(post[0] == pre[0]);
    assert forall|j: int| 2 <= j < post.len() implies !slot_live(#[trigger] post[j]) by {
        assert(j < pre.len());
        assert(!slot_live(pre[j]));
        assert(!slot_client(pre[j]));
        assert(post[j] == pre[j]);
    }
    lemma_seed_plus_island(post);
}

/// The pool of world shards: new peers land in the first shard that has
/// gone quiet, recycled to its starting state, and a new shard is
/// allocated only when none is free.
#[derive(Debug)]
pub struct StarterWorlds {
    pub worlds: Vec<World>,
}

impl StarterWorlds {
    /// All shard stores well-formed.
    pub open spec fn wf(self) -> bool {
        forall|i: int| 0 <= i < self.worlds@.len() ==> (#[trigger] self.worlds@[i]).wf()
    }

    /// An empty pool.
    pub fn new() -> (r: StarterWorlds)
        ensures
            r.wf(),
            r.worlds@.len() == 0,
    {
        StarterWorlds { worlds: Vec::new() }
    }

    /// The first shard with no peers in it, if any.
    pub fn first_unoccupied(&self) -> (r: Option<usize>)
        ensures
            match r {
                Some(i) => {
                    &&& i < self.worlds@.len()
                    &&& spec_client_count(self.worlds@[i as int].ecs.slots@) == 0
                    &&& forall|j: int| 0 <= j < i ==> spec_client_count(
                        (#[trigger] self.worlds@[j]).ecs.slots@,
                    ) > 0
                },
                None => forall|j: int| 0 <= j < self.worlds@.len() ==> spec_client_count(
                    (#[trigger] self.worlds@[j]).ecs.slots@,
                ) > 0,
            },
    {
        let n = self.worlds.len();
        let mut i: usize = 0;
        while i < n
            invariant
                i <= n,
                n == self.worlds@.len(),
                forall|j: int| 0 <= j < i ==> spec_client_count(
                    (#[trigger] self.worlds@[j]).ecs.slots@,
                ) > 0,
            decreases n - i,
        {
            if !self.worlds[i].is_occupied() {
                return Some(i);
            }
            i = i + 1;
        }
        None
    }

    /// Connects a peer: its island lands in the first quiet shard,
    /// recycled to the seed layout, or in a newly allocated shard when
    /// every existing one is in use — either way the shard starts as the
    /// seed decoration set plus the new island, with this peer as its one
    /// client. Hands back which shard it joined.
    pub fn connect(&mut self, client: Session) -> (r: usize)
        requires
            old(self).wf(),
            old(self).worlds@.len() < u32::MAX,
            forall|i: int| 0 <= i < old(self).worlds@.len() ==> (#[trigger] old(
                self,
            ).worlds@[i]).ecs.slots@.len() < u32::MAX,
            client.channel.wf(),
        ensures
            final(self).wf(),
            r < final(self).worlds@.len(),
            spec_layout(final(self).worlds@[r as int].ecs.slots@) == spec_seed_layout().push(
                (Pos { x: 0, y: 0 }, Art::Island),
            ),
            spec_client_count(final(self).worlds@[r as int].ecs.slots@) == 1,
            ({
                let had_free = exists|j: int|
                    0 <= j < old(self).worlds@.len() && spec_client_count(
                        (#[trigger] old(self).worlds@[j]).ecs.slots@,
                    ) == 0;
                if had_free {
                    final(self).worlds@.len() == old(self).worlds@.len()
                } else {
                    final(self).worlds@.len() == old(self).worlds@.len() + 1 && r
                        == old(self).worlds@.len() && final(self).worlds@[r as int].name@
                        == "Starter World "@ + spec_digits(old(self).worlds@.len() as nat)
                }
            }),
            forall|j: int| 0 <= j < old(self).worlds@.len() && j != r
                ==> #[trigger] final(self).worlds@[j] == old(self).worlds@[j],
    {
        let island = PlayerIsland::new(Pos { x: 0, y: 0 }, client);
        match self.first_unoccupied() {
            Some(i) => {
                let w = &mut self.worlds[i];
                prepare_starter(w);
                let ghost pre = w.ecs.slots@;
                let id = w.connect(island);
                proof {
                    if (id.index as int) < pre.len() {
                        assert(!slot_live(pre[id.index as int]));
                    }
                    lemma_join_shape(pre, w.ecs.slots@, id);
                }
                i
            },
            None => {
                let n = self.worlds.len();
                let mut new_world = World::new(world_name_for(n as u32));
                prepare_starter(&mut new_world);
                let ghost pre = new_world.ecs.slots@;
                let id = new_world.connect(island);
                proof {
                    if (id.index as int) < pre.len() {
                        assert(!slot_live(pre[id.index as int]));
                    }
                    lemma_join_shape(pre, new_world.ecs.slots@, id);
                }
                self.worlds.push(new_world);
                n
            },
        }
    }

    /// Advances every occupied shard one tick, fanning each shard's chat
    /// batch back out within that shard alone; quiet shards are left
    /// untouched, which no peer can observe since none is there.
    pub fn update(&mut self, chat: &mut ChatDispatcher, now_ms: u64)
        requires
            old(self).wf(),
            forall|i: int| 0 <= i < old(self).worlds@.len() ==> (#[trigger] old(
                self,
            ).worlds@[i]).tick < u32::MAX,
            forall|i: int| 0 <= i < old(self).worlds@.len() ==> (#[trigger] old(
                self,
            ).worlds@[i]).ecs.slots@.len() < u32::MAX,
        ensures
            final(self).wf(),
            final(self).worlds@.len() == old(self).worlds@.len(),
            forall|i: int| 0 <= i < old(self).worlds@.len() ==> {
                let a = old(self).worlds@[i];
                let b = #[trigger] final(self).worlds@[i];
                if spec_client_count(a.ecs.slots@) > 0 {
                    b.tick == a.tick + 1 && b.name@ == a.name@ && b.ecs.slots@.len()
                        == a.ecs.slots@.len()
                } else {
                    b == a
                }
            },
    {
        let ghost pre = self.worlds@;
        let n = self.worlds.len();
        let mut i: usize = 0;
        while i < n
            invariant
                i <= n,
                n == self.worlds@.len(),
                n == pre.len(),
                forall|j: int| 0 <= j < n ==> (#[trigger] pre[j]).wf(),
                forall|j: int| 0 <= j < n ==> (#[trigger] pre[j]).tick < u32::MAX,
                forall|j: int| 0 <= j < n ==> (#[trigger] pre[j]).ecs.slots@.len() < u32::MAX,
                forall|j: int| i <= j < n ==> #[trigger] self.worlds@[j] == pre[j],
                forall|j: int| 0 <= j < i ==> {
                    let a = pre[j];
                    let b = #[trigger] self.worlds@[j];
                    &&& b.wf()
                    &&& if spec_client_count(a.ecs.slots@) > 0 {
                        b.tick == a.tick + 1 && b.name@ == a.name@ && b.ecs.slots@.len()
                            == a.ecs.slots@.len()
                    } else {
                        b == a
                    }
                },
            decreases n - i,
        {
            let occupied = self.worlds[i].is_occupied();
            if occupied {
                let w = &mut self.worlds[i];
                chat.fill(&mut w.ecs);
                proof {
                    lemma_count_drained(pre[i as int].ecs.slots@, w.ecs.slots@);
                }
                w.update(chat, now_ms);
            }
            i = i + 1;
        }
    }
}

/// Draining chats changes no slot's client-ness, so the client count
/// stays the same.
proof fn lemma_count_drained(a: Seq<Slot>, b: Seq<Slot>)
    requires
        a.len() == b.len(),
        forall|i: int| 0 <= i < a.len() ==> slot_drained(a[i], #[trigger] b[i]),
    ensures
        spec_client_count(b) == spec_client_count(a),
    decreases a.len(),
{
    if a.len() > 0 {
        assert(slot_drained(a.last(), b.last()));
        assert(slot_client(b.last()) == slot_client(a.last()));
        lemma_count_drained(a.drop_last(), b.drop_last());
    }
}

/// The delta updates of one tick report each entity at most once —
/// pairwise distinct ids — and at most one update per slot; an entity
/// whose position matches its last broadcast contributes none at all,
/// which is what [`slot_move`] says of it.
pub proof fn lemma_moves_delta(s: Seq<Slot>, tick: u32)
    requires
        s.len() <= u32::MAX,
    ensures
        spec_moves(s, tick).len() <= s.len(),
        forall|l: int| 0 <= l < spec_moves(s, tick).len() ==> ((#[trigger] spec_moves(
            s,
            tick,
        )[l]).id & 0xFFFF_FFFFu64) < s.len(),
        forall|l1: int, l2: int| 0 <= l1 < l2 < spec_moves(s, tick).len() ==> spec_moves(
            s,
            tick,
        )[l1].id != spec_moves(s, tick)[l2].id,
    decreases s.len(),
{
    if s.len() > 0 {
        lemma_moves_delta(s.drop_last(), tick);
        let m0 = spec_moves(s.drop_last(), tick);
        let m = spec_moves(s, tick);
        let c = slot_move(s.last(), s.len() - 1, tick);
        assert(m == m0 + c);
        assert forall|l: int| 0 <= l < m.len() implies ((#[trigger] m[l]).id
            & 0xFFFF_FFFFu64) < s.len() by {
            if l < m0.len() {
                assert(m[l] == m0[l]);
            } else {
                let i = (s.len() - 1) as u32;
                let g = s.last().generation;
                assert(m[l] == c[0]);
                assert(c[0].id == ((i as u64) | ((g as u64) << 32)));
                assert((((i as u64) | ((g as u64) << 32)) & 0xFFFF_FFFFu64) == i as u64)
                    by (bit_vector);
            }
        }
        assert forall|l1: int, l2: int|
            0 <= l1 < l2 < m.len() implies m[l1].id != m[l2].id by {
            if l2 < m0.len() {
                assert(m[l1] == m0[l1]);
                assert(m[l2] == m0[l2]);
            } else {
                let i = (s.len() - 1) as u32;
                let g = s.last().generation;
                assert(m[l1] == m0[l1]);
                assert((m0[l1].id & 0xFFFF_FFFFu64) < s.drop_last().len());
                assert(m[l2] == c[0]);
                assert(c[0].id == ((i as u64) | ((g as u64) << 32)));
                assert((((i as u64) | ((g as u64) << 32)) & 0xFFFF_FFFFu64) == i as u64)
                    by (bit_vector);
            }
        }
    }
}

/// Each evicted peer is announced exactly once per tick: the despawn
/// broadcasts of one tick name pairwise distinct entities, so no
/// remaining peer ever hears of the same eviction twice.
pub proof fn lemma_despawns_once(s: Seq<Slot>, now_ms: u64)
    requires
        s.len() < u32::MAX,
    ensures
        forall|l1: int, l2: int| 0 <= l1 < l2 < spec_despawns(s, now_ms).len()
            ==> #[trigger] spec_despawns(s, now_ms)[l1] != #[trigger] spec_despawns(
            s,
            now_ms,
        )[l2],
{
    lemma_stale_ids(s, now_ms);
    let t = spec_stale_ids(s, now_ms);
    let d = spec_despawns(s, now_ms);
    assert forall|l1: int, l2: int| 0 <= l1 < l2 < d.len() implies #[trigger] d[l1]
        != #[trigger] d[l2] by {
        assert(t[l1].index < t[l2].index);
        lemma_to_bits_injective(t[l1], t[l2]);
        assert(d[l1] == Message::EntEvent(EntEvent::Despawn(spec_to_bits(t[l1]))));
        assert(d[l2] == Message::EntEvent(EntEvent::Despawn(spec_to_bits(t[l2]))));
    }
}

} // verus!










