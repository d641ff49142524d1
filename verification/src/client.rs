//! The client's reconciliation core: the replicated entity table fed by
//! spawn/despawn events and position samples, the tick clock that advances
//! on wall-clock time handed in as explicit microseconds, the heartbeat
//! cadence, and the chat log ring.
use vstd::prelude::*;
use vstd::string::*;
use crate::Art;
use crate::msg::{Chat, EntEvent, Heartbeat, Message, Move, MsgKind, MsgView, Pos};
use crate::channel::{
    ChannelSet, outs_equal_except, queue_wf, send_or_err, spec_fold_sends_view, spec_out,
    spec_send_accepts, spec_sent_queue, spec_sent_queue_view,
};
use crate::codec::{msg_view_wf, spec_encode};
use crate::msg::{MAX_MESSAGE_LEN, MESSAGE_BUFFER_SIZE};
use crate::interp::Ent;

verus! {

/// Whether the table knows an entity under this id.
pub open spec fn has_id(s: Seq<(u64, Ent)>, id: u64) -> bool {
    exists|k: int| 0 <= k < s.len() && (#[trigger] s[k]).0 == id
}

/// Whether an entity table holds each id at most once.
pub open spec fn ids_unique(s: Seq<(u64, Ent)>) -> bool {
    forall|i: int, j: int| 0 <= i < j < s.len() ==> s[i].0 != s[j].0
}

/// Every entity's sample ring well-formed.
pub open spec fn ents_wf(s: Seq<(u64, Ent)>) -> bool {
    &&& ids_unique(s)
    &&& forall|i: int| 0 <= i < s.len() ==> (#[trigger] s[i].1).wf()
}

/// How one lifecycle event takes an entity table from `a` to `b`: a spawn
/// installs a fresh single-sample entity under its id — replacing the ring
/// of an entry already held under that id, appending otherwise — and moves
/// nothing else; a despawn removes exactly the entry with its id, or
/// nothing when the id is unknown.
pub open spec fn event_step(a: Seq<(u64, Ent)>, e: EntEvent, b: Seq<(u64, Ent)>) -> bool {
    match e {
        EntEvent::Spawn(id, pos, art) => if has_id(a, id) {
            &&& b.len() == a.len()
            &&& forall|k: int| 0 <= k < a.len() && (#[trigger] a[k]).0 != id ==> b[k] == a[k]
            &&& forall|k: int| 0 <= k < a.len() && (#[trigger] a[k]).0 == id ==> b[k].0 == id
                && b[k].1.pos_frames@ == seq![(0u32, pos)] && b[k].1.art == art
        } else {
            &&& b.len() == a.len() + 1
            &&& forall|k: int| 0 <= k < a.len() ==> #[trigger] b[k] == a[k]
            &&& b.last().0 == id
            &&& b.last().1.pos_frames@ == seq![(0u32, pos)]
            &&& b.last().1.art == art
        },
        EntEvent::Despawn(id) => if has_id(a, id) {
            exists|k: int| 0 <= k < a.len() && (#[trigger] a[k]).0 == id && b == a.remove(k)
        } else {
            b == a
        },
    }
}

/// How one position sample takes an entity table from `a` to `b`: the
/// entry under the sample's id takes it per the ring's rules, every other
/// entry is untouched, and an unknown id changes nothing.
pub open spec fn move_step(a: Seq<(u64, Ent)>, m: Move, b: Seq<(u64, Ent)>) -> bool {
    &&& b.len() == a.len()
    &&& forall|k: int| 0 <= k < b.len() ==> (#[trigger] b[k]).0 == a[k].0
    &&& forall|k: int| 0 <= k < b.len() && a[k].0 != m.id ==> #[trigger] b[k] == a[k]
    &&& forall|k: int| 0 <= k < b.len() && a[k].0 == m.id ==> {
        let fr0 = a[k].1.pos_frames@;
        let fr1 = (#[trigger] b[k]).1.pos_frames@;
        &&& b[k].1.art == a[k].1.art
        &&& (m.tick <= fr0[0].0 ==> fr1 == fr0)
        &&& (m.tick > fr0[0].0 ==> fr1 == seq![(m.tick, m.pos)] + fr0.take(
            if fr0.len() < crate::interp::FRAMES_SAVED {
                fr0.len() as int
            } else {
                crate::interp::FRAMES_SAVED - 1
            },
        ))
    }
}

/// The table `b` is what applying the events to `a`, in order, leaves
/// behind.
pub open spec fn events_applied(a: Seq<(u64, Ent)>, es: Seq<EntEvent>, b: Seq<(u64, Ent)>) -> bool
    decreases es.len(),
{
    if es.len() == 0 {
        b == a
    } else {
        exists|mid: Seq<(u64, Ent)>| #[trigger] event_step(a, es[0], mid) && events_applied(
            mid,
            es.skip(1),
            b,
        )
    }
}

/// The table `b` is what applying the samples to `a`, in order, leaves
/// behind.
pub open spec fn moves_applied(a: Seq<(u64, Ent)>, ms: Seq<Move>, b: Seq<(u64, Ent)>) -> bool
    decreases ms.len(),
{
    if ms.len() == 0 {
        b == a
    } else {
        exists|mid: Seq<(u64, Ent)>| #[trigger] move_step(a, ms[0], mid) && moves_applied(
            mid,
            ms.skip(1),
            b,
        )
    }
}

/// One more applied event extends the chain.
proof fn lemma_events_snoc(
    a: Seq<(u64, Ent)>,
    es: Seq<EntEvent>,
    mid: Seq<(u64, Ent)>,
    e: EntEvent,
    b: Seq<(u64, Ent)>,
)
    requires
        events_applied(a, es, mid),
        event_step(mid, e, b),
    ensures
        events_applied(a, es.push(e), b),
    decreases es.len(),
{
    if es.len() == 0 {
        assert(mid == a);
        assert(es.push(e)[0] == e);
        assert(es.push(e).skip(1) =~= Seq::<EntEvent>::empty());
        assert(events_applied(b, es.push(e).skip(1), b));
        assert(event_step(a, es.push(e)[0], b));
    } else {
        let m0 = choose|m0: Seq<(u64, Ent)>| #[trigger] event_step(a, es[0], m0)
            && events_applied(m0, es.skip(1), mid);
        lemma_events_snoc(m0, es.skip(1), mid, e, b);
        assert(es.push(e)[0] == es[0]);
        assert(es.push(e).skip(1) =~= es.skip(1).push(e));
        assert(event_step(a, es.push(e)[0], m0));
        assert(events_applied(m0, es.push(e).skip(1), b));
    }
}

/// One more applied sample extends the chain.
proof fn lemma_moves_snoc(
    a: Seq<(u64, Ent)>,
    ms: Seq<Move>,
    mid: Seq<(u64, Ent)>,
    m: Move,
    b: Seq<(u64, Ent)>,
)
    requires
        moves_applied(a, ms, mid),
        move_step(mid, m, b),
    ensures
        moves_applied(a, ms.push(m), b),
    decreases ms.len(),
{
    if ms.len() == 0 {
        assert(mid == a);
        assert(ms.push(m)[0] == m);
        assert(ms.push(m).skip(1) =~= Seq::<Move>::empty());
        assert(moves_applied(b, ms.push(m).skip(1), b));
        assert(move_step(a, ms.push(m)[0], b));
    } else {
        let m0 = choose|m0: Seq<(u64, Ent)>| #[trigger] move_step(a, ms[0], m0)
            && moves_applied(m0, ms.skip(1), mid);
        lemma_moves_snoc(m0, ms.skip(1), mid, m, b);
        assert(ms.push(m)[0] == ms[0]);
        assert(ms.push(m).skip(1) =~= ms.skip(1).push(m));
        assert(move_step(a, ms.push(m)[0], m0));
        assert(moves_applied(m0, ms.push(m).skip(1), b));
    }
}

/// The replicated entities the client knows of, keyed by their wire id.
#[derive(Debug)]
pub struct Ents {
    pub ents: Vec<(u64, Ent)>,
}

impl Ents {
    /// Unique ids, well-formed rings.
    pub open spec fn wf(self) -> bool {
        ents_wf(self.ents@)
    }

    /// Builds the table from a join snapshot: exactly the empty table with
    /// one spawn applied per entry, in order — so each entry ends as the
    /// fresh entity of its tuple, and of entries sharing an id the last
    /// one wins.
    #[verifier::loop_isolation(false)]
    pub fn new(islands: Vec<(u64, Pos, Art)>) -> (r: Ents)
        ensures
            r.wf(),
            r.ents@.len() <= islands@.len(),
            forall|j: int| 0 <= j < islands@.len() ==> has_id(
                r.ents@,
                (#[trigger] islands@[j]).0,
            ),
            events_applied(
                Seq::empty(),
                islands@.map(|i: int, t: (u64, Pos, Art)| EntEvent::Spawn(t.0, t.1, t.2)),
                r.ents@,
            ),
    {
        let ghost evs = islands@.map(
            |i: int, t: (u64, Pos, Art)| EntEvent::Spawn(t.0, t.1, t.2),
        );
        let mut r = Ents { ents: Vec::new() };
        proof {
            assert(evs.take(0) =~= Seq::<EntEvent>::empty());
            assert(r.ents@ =~= Seq::<(u64, Ent)>::empty());
        }
        let n = islands.len();
        let mut j: usize = 0;
        while j < n
            invariant
                j <= n,
                n == islands@.len(),
                r.wf(),
                r.ents@.len() <= j,
                forall|j2: int| 0 <= j2 < j ==> has_id(
                    r.ents@,
                    (#[trigger] islands@[j2]).0,
                ),
                events_applied(Seq::empty(), evs.take(j as int), r.ents@),
            decreases n - j,
        {
            let ghost before = r.ents@;
            let (id, pos, art) = islands[j];
            proof {
                assert(evs[j as int] == EntEvent::Spawn(id, pos, art));
            }
            r.apply_event(EntEvent::Spawn(id, pos, art));
            proof {
                lemma_events_snoc(
                    Seq::empty(),
                    evs.take(j as int),
                    before,
                    EntEvent::Spawn(id, pos, art),
                    r.ents@,
                );
                assert(evs.take(j as int).push(evs[j as int]) =~= evs.take(j + 1));
            }
            j = j + 1;
        }
        proof {
            assert(evs.take(n as int) =~= evs);
        }
        r
    }

    /// The position of `id` in the table, if present.
    fn find(&self, id: u64) -> (r: Option<usize>)
        ensures
            match r {
                Some(k) => k < self.ents@.len() && self.ents@[k as int].0 == id,
                None => forall|k: int| 0 <= k < self.ents@.len() ==> (
                #[trigger] self.ents@[k]).0 != id,
            },
    {
        let n = self.ents.len();
        let mut k: usize = 0;
        while k < n
            invariant
                k <= n,
                n == self.ents@.len(),
                forall|k2: int| 0 <= k2 < k ==> (#[trigger] self.ents@[k2]).0 != id,
            decreases n - k,
        {
            if self.ents[k].0 == id {
                return Some(k);
            }
            k = k + 1;
        }
        None
    }

    /// Applies one entity lifecycle event: a spawn inserts a fresh entity
    /// (replacing any it already knows under that id), a despawn forgets
    /// the id entirely.
    #[verifier::rlimit(100)]
    #[verifier::spinoff_prover]
    pub fn apply_event(&mut self, e: EntEvent)
        requires
            old(self).wf(),
        ensures
            final(self).wf(),
            final(self).ents@.len() <= old(self).ents@.len() + 1,
            event_step(old(self).ents@, e, final(self).ents@),
            e matches EntEvent::Spawn(id, pos, art) ==> {
                &&& exists|k: int|
                    0 <= k < final(self).ents@.len() && (#[trigger] final(self).ents@[k]).0
                        == id && final(self).ents@[k].1.pos_frames@ == seq![(0u32, pos)]
                        && final(self).ents@[k].1.art == art
                &&& has_id(final(self).ents@, id)
                &&& forall|k: int|
                    0 <= k < old(self).ents@.len() ==> has_id(
                        final(self).ents@,
                        (#[trigger] old(self).ents@[k]).0,
                    )
                &&& forall|k: int|
                    0 <= k < final(self).ents@.len() && (#[trigger] final(self).ents@[k]).0
                        != id ==> has_id(old(self).ents@, final(self).ents@[k].0)
            },
            e matches EntEvent::Despawn(id) ==> {
                &&& forall|k: int| 0 <= k < final(self).ents@.len() ==> (
                #[trigger] final(self).ents@[k]).0 != id
                &&& (exists|k: int|
                    0 <= k < old(self).ents@.len() && (#[trigger] old(self).ents@[k]).0 == id)
                    ==> final(self).ents@.len() == old(self).ents@.len() - 1
                &&& (forall|k: int| 0 <= k < old(self).ents@.len() ==> (#[trigger] old(
                    self,
                ).ents@[k]).0 != id) ==> *final(self) == *old(self)
                &&& forall|k2: int|
                    0 <= k2 < old(self).ents@.len() && (#[trigger] old(self).ents@[k2]).0 != id
                        ==> exists|k: int|
                        0 <= k < final(self).ents@.len() && final(self).ents@[k] == old(
                        self,
                    ).ents@[k2]
            },
    {
        match e {
            EntEvent::Spawn(id, pos, art) => {
                let fresh = Ent::new(pos, art);
                match self.find(id) {
                    Some(k) => {
                        let entry = &mut self.ents[k];
                        *entry = (id, fresh);
                        proof {
                            assert(self.ents@ == old(self).ents@.update(k as int, (id, fresh)));
                            assert(self.ents@[k as int].0 == id);
                            assert forall|i: int, j: int|
                                0 <= i < j < self.ents@.len() implies self.ents@[i].0 != self.ents@[j].0 by {
                                assert(old(self).ents@[i].0 != old(self).ents@[j].0);
                                if i == k {
                                    assert(self.ents@[j] == old(self).ents@[j]);
                                } else if j == k {
                                    assert(self.ents@[i] == old(self).ents@[i]);
                                }
                            }
                            assert forall|i: int|
                                0 <= i < self.ents@.len() implies (#[trigger] self.ents@[i].1).wf() by {
                                if i != k {
                                    assert(self.ents@[i] == old(self).ents@[i]);
                                }
                            }
                            assert(has_id(self.ents@, id));
                            assert forall|k2: int|
                                0 <= k2 < old(self).ents@.len() implies has_id(
                                self.ents@,
                                (#[trigger] old(self).ents@[k2]).0,
                            ) by {
                                if k2 == k {
                                    assert(old(self).ents@[k2].0 == id);
                                    assert(self.ents@[k as int].0 == id);
                                } else {
                                    assert(self.ents@[k2] == old(self).ents@[k2]);
                                }
                            }
                            assert forall|k2: int|
                                0 <= k2 < self.ents@.len() && (#[trigger] self.ents@[k2]).0
                                != id implies has_id(
                                old(self).ents@,
                                self.ents@[k2].0,
                            ) by {
                                assert(self.ents@[k2] == old(self).ents@[k2]);
                            }
                        }
                    },
                    None => {
                        self.ents.push((id, fresh));
                        proof {
                            assert(self.ents@ == old(self).ents@.push((id, fresh)));
                            assert(self.ents@[old(self).ents@.len() as int].0 == id);
                            assert forall|i: int, j: int|
                                0 <= i < j < self.ents@.len() implies self.ents@[i].0 != self.ents@[j].0 by {
                                if j == old(self).ents@.len() {
                                    assert(self.ents@[i] == old(self).ents@[i]);
                                    assert(old(self).ents@[i].0 != id);
                                } else {
                                    assert(self.ents@[i] == old(self).ents@[i]);
                                    assert(self.ents@[j] == old(self).ents@[j]);
                                }
                            }
                            assert forall|i: int|
                                0 <= i < self.ents@.len() implies (#[trigger] self.ents@[i].1).wf() by {
                                if i < old(self).ents@.len() {
                                    assert(self.ents@[i] == old(self).ents@[i]);
                                }
                            }
                            assert(self.ents@[old(self).ents@.len() as int].0 == id);
                            assert(has_id(self.ents@, id));
                            assert forall|k2: int|
                                0 <= k2 < old(self).ents@.len() implies has_id(
                                self.ents@,
                                (#[trigger] old(self).ents@[k2]).0,
                            ) by {
                                assert(self.ents@[k2] == old(self).ents@[k2]);
                            }
                            assert forall|k2: int|
                                0 <= k2 < self.ents@.len() && (#[trigger] self.ents@[k2]).0
                                != id implies has_id(
                                old(self).ents@,
                                self.ents@[k2].0,
                            ) by {
                                assert(k2 != old(self).ents@.len());
                                assert(self.ents@[k2] == old(self).ents@[k2]);
                            }
                        }
                    },
                }
            },
            EntEvent::Despawn(id) => {
                match self.find(id) {
                    Some(k) => {
                        self.ents.remove(k);
                        proof {
                            assert(old(self).ents@[k as int].0 == id);
                            assert forall|k2: int|
                                0 <= k2 < self.ents@.len() implies (#[trigger] self.ents@[k2]).0
                                != id by {
                                if k2 < k {
                                    assert(self.ents@[k2] == old(self).ents@[k2]);
                                    assert(old(self).ents@[k2].0 != old(self).ents@[k as int].0);
                                } else {
                                    assert(self.ents@[k2] == old(self).ents@[k2 + 1]);
                                    assert(old(self).ents@[k2 + 1].0 != old(self).ents@[k as int].0);
                                }
                            }
                            assert forall|k2: int|
                                0 <= k2 < old(self).ents@.len() && (#[trigger] old(self).ents@[k2]).0 != id implies
                                exists|k3: int|
                                0 <= k3 < self.ents@.len() && self.ents@[k3] == old(self).ents@[k2] by {
                                if k2 < k {
                                    assert(self.ents@[k2] == old(self).ents@[k2]);
                                } else {
                                    assert(k2 != k);
                                    assert(self.ents@[k2 - 1] == old(self).ents@[k2]);
                                }
                            }
                            assert forall|i: int, j: int|
                                0 <= i < j < self.ents@.len() implies self.ents@[i].0 != self.ents@[j].0 by {
                                let pi: int = if i < k {
                                    i
                                } else {
                                    i + 1
                                };
                                let pj: int = if j < k {
                                    j
                                } else {
                                    j + 1
                                };
                                assert(self.ents@[i] == old(self).ents@[pi]);
                                assert(self.ents@[j] == old(self).ents@[pj]);
                                assert(old(self).ents@[pi].0 != old(self).ents@[pj].0);
                            }
                            assert forall|i: int|
                                0 <= i < self.ents@.len() implies (#[trigger] self.ents@[i].1).wf() by {
                                if i < k {
                                    assert(self.ents@[i] == old(self).ents@[i]);
                                } else {
                                    assert(self.ents@[i] == old(self).ents@[i + 1]);
                                }
                            }
                        }
                    },
                    None => {},
                }
            },
        }
    }

    /// Applies one position sample: an entity it knows under that id takes
    /// the sample into its ring per the ring's rules; an unknown id is
    /// ignored.
    pub fn apply_move(&mut self, m: crate::msg::Move)
        requires
            old(self).wf(),
        ensures
            final(self).wf(),
            move_step(old(self).ents@, m, final(self).ents@),
            final(self).ents@.len() == old(self).ents@.len(),
            forall|k: int| 0 <= k < final(self).ents@.len() ==> (#[trigger] final(self).ents@[k]).0 == old(self).ents@[k].0,
            forall|k: int| 0 <= k < final(self).ents@.len() && old(self).ents@[k].0 != m.id
                ==> #[trigger] final(self).ents@[k] == old(self).ents@[k],
            forall|k: int| 0 <= k < final(self).ents@.len() && old(self).ents@[k].0 == m.id
                ==> {
                let fr0 = old(self).ents@[k].1.pos_frames@;
                let fr1 = (#[trigger] final(self).ents@[k]).1.pos_frames@;
                &&& final(self).ents@[k].1.art == old(self).ents@[k].1.art
                &&& (m.tick <= fr0[0].0 ==> fr1 == fr0)
                &&& (m.tick > fr0[0].0 ==> fr1 == seq![(m.tick, m.pos)] + fr0.take(
                    if fr0.len() < crate::interp::FRAMES_SAVED {
                        fr0.len() as int
                    } else {
                        crate::interp::FRAMES_SAVED - 1
                    },
                ))
            },
    {
        match self.find(m.id) {
            Some(k) => {
                let entry = &mut self.ents[k];
                entry.1.push_sample(m.tick, m.pos);
            },
            None => {},
        }
    }

    /// Drains the pending entity events, then the pending position
    /// samples, applying each in arrival order: the final table is exactly
    /// the old table with every drained event applied, then every drained
    /// sample.
    pub fn poll_messages(&mut self, channels: &mut ChannelSet)
        requires
            old(self).wf(),
        ensures
            final(self).wf(),
            *final(channels) == (ChannelSet {
                in_ent: final(channels).in_ent,
                in_move: final(channels).in_move,
                ..*old(channels)
            }),
            final(channels).in_ent@.len() == 0,
            final(channels).in_move@.len() == 0,
            exists|mid: Seq<(u64, Ent)>|
                #[trigger] events_applied(old(self).ents@, old(channels).in_ent@, mid)
                    && moves_applied(mid, old(channels).in_move@, final(self).ents@),
    {
        let ghost pre = *channels;
        let ghost ents0 = self.ents@;
        let ghost evs = channels.in_ent@;
        let ghost mut k: int = 0;
        proof {
            assert(evs.skip(0) =~= evs);
            assert(evs.take(0) =~= Seq::<EntEvent>::empty());
        }
        loop
            invariant
                self.wf(),
                *channels == (ChannelSet { in_ent: channels.in_ent, ..pre }),
                0 <= k <= evs.len(),
                channels.in_ent@ == evs.skip(k),
                events_applied(ents0, evs.take(k), self.ents@),
            ensures
                self.wf(),
                *channels == (ChannelSet { in_ent: channels.in_ent, ..pre }),
                channels.in_ent@.len() == 0,
                events_applied(ents0, evs, self.ents@),
            decreases channels.in_ent@.len(),
        {
            let ghost before = self.ents@;
            match channels.recv_ent_event() {
                Some(e) => {
                    proof {
                        assert(evs.skip(k)[0] == evs[k as int]);
                    }
                    self.apply_event(e);
                    proof {
                        lemma_events_snoc(ents0, evs.take(k), before, e, self.ents@);
                        assert(evs.take(k).push(evs[k as int]) =~= evs.take(k + 1));
                        assert(evs.skip(k).skip(1) =~= evs.skip(k + 1));
                        k = k + 1;
                    }
                },
                None => {
                    proof {
                        assert(k == evs.len());
                        assert(evs.take(k) =~= evs);
                    }
                    break;
                },
            }
        }
        let ghost mid_ents = self.ents@;
        let ghost mvs = channels.in_move@;
        let ghost mut k2: int = 0;
        proof {
            assert(mvs.skip(0) =~= mvs);
            assert(mvs.take(0) =~= Seq::<Move>::empty());
        }
        let ghost mid_ch = *channels;
        loop
            invariant
                self.wf(),
                *channels == (ChannelSet { in_move: channels.in_move, ..mid_ch }),
                0 <= k2 <= mvs.len(),
                channels.in_move@ == mvs.skip(k2),
                moves_applied(mid_ents, mvs.take(k2), self.ents@),
            ensures
                self.wf(),
                *channels == (ChannelSet { in_move: channels.in_move, ..mid_ch }),
                channels.in_move@.len() == 0,
                moves_applied(mid_ents, mvs, self.ents@),
            decreases channels.in_move@.len(),
        {
            let ghost before = self.ents@;
            match channels.recv_move() {
                Some(m) => {
                    proof {
                        assert(mvs.skip(k2)[0] == mvs[k2 as int]);
                    }
                    self.apply_move(m);
                    proof {
                        lemma_moves_snoc(mid_ents, mvs.take(k2), before, m, self.ents@);
                        assert(mvs.take(k2).push(mvs[k2 as int]) =~= mvs.take(k2 + 1));
                        assert(mvs.skip(k2).skip(1) =~= mvs.skip(k2 + 1));
                        k2 = k2 + 1;
                    }
                },
                None => {
                    proof {
                        assert(k2 == mvs.len());
                        assert(mvs.take(k2) =~= mvs);
                    }
                    break;
                },
            }
        }
        proof {
            assert(events_applied(old(self).ents@, old(channels).in_ent@, mid_ents));
            assert(moves_applied(mid_ents, old(channels).in_move@, self.ents@));
        }
    }
}

/// One simulation tick, in microseconds of wall-clock time.
pub const TICK_US: u64 = 50000;

/// The client's tick clock: a whole tick count plus the not yet elapsed
/// remainder, advanced by explicit elapsed wall-clock time. It never runs
/// backwards.
#[derive(Clone, Copy, Debug, PartialEq, Eq, Structural)]
pub struct Clock {
    pub tick: u32,
    /// Time into the current tick, in microseconds; always under a tick.
    pub rem_us: u64,
}

impl Clock {
    /// The remainder stays under one tick.
    pub open spec fn wf(self) -> bool {
        self.rem_us < TICK_US
    }

    /// Starts at the given tick, at its very beginning.
    pub fn new(tick: u32) -> (r: Clock)
        ensures
            r.wf(),
            r.tick == tick,
            r.rem_us == 0,
    {
        Clock { tick, rem_us: 0 }
    }

    /// Advances by elapsed wall-clock time: whole ticks move the counter,
    /// the rest stays as the fractional progress. Hands back the new tick
    /// and remainder.
    pub fn tick(&mut self, elapsed_us: u64) -> (r: (u32, u64))
        requires
            old(self).wf(),
            elapsed_us <= u64::MAX - TICK_US,
            old(self).tick + (old(self).rem_us + elapsed_us) / (TICK_US as int) <= u32::MAX,
        ensures
            final(self).wf(),
            final(self).tick == old(self).tick + (old(self).rem_us + elapsed_us) / (TICK_US as int),
            final(self).rem_us == (old(self).rem_us + elapsed_us) % (TICK_US as int),
            r == (final(self).tick, final(self).rem_us),
            final(self).tick >= old(self).tick,
    {
        let total = self.rem_us + elapsed_us;
        self.tick = self.tick + (total / TICK_US) as u32;
        self.rem_us = total % TICK_US;
        (self.tick, self.rem_us)
    }
}

/// How often a heartbeat goes out, in milliseconds.
pub const HEARTBEAT_INTERVAL_MS: u64 = 200;

/// The heartbeat cadence: fires whenever more than the interval has passed
/// since the last beat, regardless of any other traffic.
#[derive(Clone, Copy, Debug, PartialEq, Eq, Structural)]
pub struct Heart {
    /// When the last heartbeat went out, in milliseconds.
    pub last_beat_ms: u64,
}

impl Heart {
    /// Starts backdated by a second (clamped at the clock's origin), so
    /// the first beat is due as soon as more than the interval has passed
    /// since that backdated point — immediately, once the clock reads past
    /// a second.
    pub fn new(now_ms: u64) -> (r: Heart)
        ensures
            r.last_beat_ms == if now_ms >= 1000 {
                (now_ms - 1000) as u64
            } else {
                0u64
            },
    {
        Heart { last_beat_ms: if now_ms >= 1000 {
            now_ms - 1000
        } else {
            0
        } }
    }

    /// Queues one heartbeat if the interval has passed, and nothing
    /// otherwise.
    pub fn beat(&mut self, channel: &mut ChannelSet, now_ms: u64)
        requires
            old(channel).wf(),
        ensures
            final(channel).wf(),
            ({
                let due = now_ms > old(self).last_beat_ms && now_ms - old(self).last_beat_ms
                    > HEARTBEAT_INTERVAL_MS;
                if due {
                    &&& final(self).last_beat_ms == now_ms
                    &&& outs_equal_except(*old(channel), *final(channel), MsgKind::Heartbeat)
                    &&& (!old(channel).torn_down ==> spec_out(
                        *final(channel),
                        MsgKind::Heartbeat,
                    ) == spec_sent_queue(
                        spec_out(*old(channel), MsgKind::Heartbeat),
                        Message::Heartbeat(Heartbeat),
                    ))
                    &&& (old(channel).torn_down ==> spec_out(
                        *final(channel),
                        MsgKind::Heartbeat,
                    ) == spec_out(*old(channel), MsgKind::Heartbeat))
                } else {
                    *final(self) == *old(self) && *final(channel) == *old(channel)
                }
            }),
    {
        if now_ms > self.last_beat_ms && now_ms - self.last_beat_ms > HEARTBEAT_INTERVAL_MS {
            self.last_beat_ms = now_ms;
            send_or_err(channel, Message::Heartbeat(Heartbeat));
        }
    }
}

/// How many chat lines the log ring keeps.
pub const MAX_MESSAGES: usize = 100;

/// The log ring and cursor after writing the given lines in order: each
/// line lands at the cursor, which then moves on, wrapping at the end of
/// the ring.
pub open spec fn spec_logged(h: Seq<Seq<char>>, pen: int, msgs: Seq<Seq<char>>) -> (Seq<
    Seq<char>,
>, int)
    decreases msgs.len(),
{
    if msgs.len() == 0 {
        (h, pen)
    } else {
        spec_logged(
            h.update(pen, msgs[0]),
            if pen + 1 == MAX_MESSAGES as int {
                0int
            } else {
                pen + 1
            },
            msgs.skip(1),
        )
    }
}

/// One more logged line lands at the resulting cursor.
proof fn lemma_logged_snoc(h: Seq<Seq<char>>, pen: int, msgs: Seq<Seq<char>>, c: Seq<char>)
    ensures
        ({
            let r = spec_logged(h, pen, msgs);
            spec_logged(h, pen, msgs.push(c)) == (r.0.update(r.1, c), if r.1 + 1
                == MAX_MESSAGES as int {
                0int
            } else {
                r.1 + 1
            })
        }),
    decreases msgs.len(),
{
    let next = if pen + 1 == MAX_MESSAGES as int {
        0int
    } else {
        pen + 1
    };
    if msgs.len() == 0 {
        assert(msgs.push(c)[0] == c);
        assert(msgs.push(c).skip(1) =~= Seq::<Seq<char>>::empty());
        assert(spec_logged(h.update(pen, c), next, Seq::<Seq<char>>::empty()) == (
            h.update(pen, c),
            next,
        ));
        assert(spec_logged(h, pen, msgs) == (h, pen));
        assert(spec_logged(h, pen, msgs.push(c)) == (h.update(pen, c), next));
    } else {
        assert(msgs.push(c)[0] == msgs[0]);
        assert(msgs.push(c).skip(1) =~= msgs.skip(1).push(c));
        lemma_logged_snoc(h.update(pen, msgs[0]), next, msgs.skip(1), c);
        assert(spec_logged(h, pen, msgs.push(c)) == spec_logged(
            h.update(pen, msgs[0]),
            next,
            msgs.skip(1).push(c),
        ));
        assert(spec_logged(h, pen, msgs) == spec_logged(
            h.update(pen, msgs[0]),
            next,
            msgs.skip(1),
        ));
    }
}

/// The chat log: a fixed ring of the most recent lines, a cursor for the
/// next line, and the line the user is preparing to send.
#[derive(Debug)]
pub struct ChatBox {
    /// All of the messages from the server.
    pub history: Vec<String>,
    /// Where the next incoming message is written.
    pub pen: usize,
    /// The message the user is preparing to send.
    pub wip_message: String,
    pub send_wip: bool,
    pub jump_to_bottom: bool,
}

impl ChatBox {
    /// Ring size fixed, cursor in range.
    pub open spec fn wf(self) -> bool {
        &&& self.history@.len() == MAX_MESSAGES
        &&& self.pen < MAX_MESSAGES
    }

    /// An empty log; the cursor starts just past the first line.
    pub fn new() -> (r: ChatBox)
        ensures
            r.wf(),
            r.pen == 1,
            forall|i: int| 0 <= i < r.history@.len() ==> (#[trigger] r.history@[i])@.len()
                == 0,
            r.wip_message@.len() == 0,
            !r.send_wip,
            !r.jump_to_bottom,
    {
        let mut history: Vec<String> = Vec::new();
        let mut i: usize = 0;
        while i < MAX_MESSAGES
            invariant
                i <= MAX_MESSAGES,
                history@.len() == i,
                forall|j: int| 0 <= j < i ==> (#[trigger] history@[j])@.len() == 0,
            decreases MAX_MESSAGES - i,
        {
            history.push(String::new());
            i = i + 1;
        }
        ChatBox {
            history,
            pen: 1,
            wip_message: String::new(),
            send_wip: false,
            jump_to_bottom: false,
        }
    }

    /// Writes one line at the cursor and moves the cursor on, wrapping at
    /// the end of the ring.
    pub fn log_message(&mut self, message: String)
        requires
            old(self).wf(),
        ensures
            final(self).wf(),
            final(self).history@ == old(self).history@.update(old(self).pen as int, message),
            final(self).pen == if old(self).pen + 1 == MAX_MESSAGES {
                0int
            } else {
                old(self).pen + 1
            },
            final(self).wip_message == old(self).wip_message,
            final(self).send_wip == old(self).send_wip,
            final(self).jump_to_bottom == old(self).jump_to_bottom,
    {
        let slot = &mut self.history[self.pen];
        *slot = message;
        self.pen = self.pen + 1;
        if self.pen == MAX_MESSAGES {
            self.pen = 0;
        }
    }

    /// Logs every chat line the server sent at the advancing cursor, in
    /// arrival order, then queues the user's prepared line if it was
    /// marked ready, clearing the mark and the line.
    pub fn sync_messages(&mut self, channels: &mut ChannelSet)
        requires
            old(self).wf(),
            old(channels).wf(),
        ensures
            final(self).wf(),
            final(channels).wf(),
            final(channels).in_chat@.len() == 0,
            !final(self).send_wip,
            ({
                let logged = spec_logged(
                    old(self).history@.map(|i: int, line: String| line@),
                    old(self).pen as int,
                    old(channels).in_chat@.map(|i: int, c: Chat| c@),
                );
                final(self).history@.map(|i: int, line: String| line@) == logged.0
                    && final(self).pen as int == logged.1
            }),
            outs_equal_except(
                ChannelSet { in_chat: final(channels).in_chat, ..*old(channels) },
                *final(channels),
                MsgKind::Chat,
            ),
            !old(self).send_wip ==> final(self).wip_message == old(self).wip_message
                && final(channels).out_chat@ == old(channels).out_chat@,
            old(self).send_wip ==> final(self).wip_message@.len() == 0
                && final(channels).out_chat@.map(|i: int, m: Message| m@)
                == spec_fold_sends_view(
                old(channels).out_chat@.map(|i: int, m: Message| m@),
                old(channels).torn_down,
                seq![MsgView::Chat(old(self).wip_message@)],
            ),
    {
        let ghost sv = |i: int, line: String| line@;
        let ghost h0 = self.history@.map(sv);
        let ghost p0 = self.pen as int;
        let ghost chats0 = channels.in_chat@;
        let ghost msgs = chats0.map(|i: int, c: Chat| c@);
        let ghost mut k: int = 0;
        proof {
            assert(chats0.skip(0) =~= chats0);
            assert(msgs.take(0) =~= Seq::<Seq<char>>::empty());
            assert(self.history@.map(|i: int, line: String| line@) == h0);
        }
        loop
            invariant
                self.wf(),
                self.send_wip == old(self).send_wip,
                self.wip_message == old(self).wip_message,
                sv == (|i: int, line: String| line@),
                msgs == chats0.map(|i: int, c: Chat| c@),
                0 <= k <= chats0.len(),
                channels.in_chat@ == chats0.skip(k),
                (self.history@.map(sv), self.pen as int) == spec_logged(
                    h0,
                    p0,
                    msgs.take(k),
                ),
                *channels == (ChannelSet { in_chat: channels.in_chat, ..*old(channels) }),
            ensures
                self.wf(),
                self.send_wip == old(self).send_wip,
                self.wip_message == old(self).wip_message,
                sv == (|i: int, line: String| line@),
                *channels == (ChannelSet { in_chat: channels.in_chat, ..*old(channels) }),
                channels.in_chat@.len() == 0,
                (self.history@.map(sv), self.pen as int) == spec_logged(h0, p0, msgs),
            decreases channels.in_chat@.len(),
        {
            let ghost hist_before = self.history@.map(sv);
            let ghost pen_before = self.pen as int;
            match channels.recv_chat() {
                Some(Chat(text)) => {
                    proof {
                        assert(chats0.skip(k)[0] == chats0[k]);
                        assert(msgs[k] == chats0[k]@);
                    }
                    self.log_message(text);
                    proof {
                        assert(self.history@.map(sv) =~= hist_before.update(
                            pen_before,
                            msgs[k],
                        ));
                        lemma_logged_snoc(h0, p0, msgs.take(k), msgs[k]);
                        assert(msgs.take(k).push(msgs[k]) =~= msgs.take(k + 1));
                        assert(chats0.skip(k).skip(1) =~= chats0.skip(k + 1));
                        k = k + 1;
                    }
                },
                None => {
                    proof {
                        assert(k == chats0.len());
                        assert(msgs.take(k) =~= msgs);
                    }
                    break;
                },
            }
        }
        let ghost mid = *channels;
        proof {
            assert forall|kk: MsgKind| queue_wf(#[trigger] spec_out(*channels, kk), kk) by {
                assert(spec_out(*channels, kk) == spec_out(*old(channels), kk));
            }
        }
        if self.send_wip {
            self.send_wip = false;
            let line = Chat(self.wip_message.clone());
            self.wip_message = String::new();
            let msg = Message::Chat(line);
            let ghost mv = |i: int, m: Message| m@;
            let ghost linev = MsgView::Chat(old(self).wip_message@);
            let ghost q0 = channels.out_chat@;
            proof {
                assert(msg@ == linev);
            }
            let ghost ch_before = *channels;
            send_or_err(channels, msg);
            proof {
                let q0v = q0.map(mv);
                assert(seq![linev][0] == linev);
                assert(seq![linev].skip(1) =~= Seq::<MsgView>::empty());
                assert(q0 == ch_before.out_chat@);
                assert(ch_before.torn_down == old(channels).torn_down);
                assert(spec_send_accepts(ch_before, msg) == (!ch_before.torn_down && (
                msg_view_wf(linev) && spec_encode(linev).len() <= MAX_MESSAGE_LEN
                    && q0v.len() < MESSAGE_BUFFER_SIZE)));
                if spec_send_accepts(ch_before, msg) {
                    assert(spec_out(*channels, MsgKind::Chat) == spec_sent_queue(q0, msg));
                    assert(q0.len() < MESSAGE_BUFFER_SIZE);
                    assert(channels.out_chat@ == q0.push(msg));
                    assert(q0.push(msg).map(mv) =~= q0v.push(linev));
                    assert(spec_sent_queue_view(q0v, linev) == q0v.push(linev));
                    assert(spec_fold_sends_view(
                        q0v.push(linev),
                        ch_before.torn_down,
                        seq![linev].skip(1),
                    ) == q0v.push(linev));
                } else {
                    assert(spec_out(*channels, MsgKind::Chat) == q0);
                    assert(spec_fold_sends_view(
                        q0v,
                        ch_before.torn_down,
                        seq![linev].skip(1),
                    ) == q0v);
                }
                assert(channels.out_chat@.map(|i: int, m: Message| m@)
                    == spec_fold_sends_view(
                    q0.map(|i: int, m: Message| m@),
                    old(channels).torn_down,
                    seq![linev],
                ));
            }
        }
        proof {
            assert forall|kk: MsgKind| kk != MsgKind::Chat implies #[trigger] spec_out(
                *channels,
                kk,
            ) == spec_out(mid, kk) by {}
        }
    }
}

} // verus!
