//! Core logic of a small authoritative multiplayer world server and its
//! client-side reconciliation: typed message channels multiplexed over one
//! datagram flow per peer, heartbeat-based liveness, entity replication
//! (spawn/despawn events, delta position updates, join snapshots) across a
//! pool of independent world shards, and the client's tick-synchronised
//! interpolation of sparse position samples.
//!
//! Everything here works on plain values: positions travel as raw 32-bit
//! coordinate encodings, time enters as explicit millisecond counts, and the
//! surrounding application owns sockets, clocks and rendering.
use vstd::prelude::*;

pub mod msg;
pub mod interp;
pub mod codec;
pub mod channel;
pub mod world;
pub mod client;

verus! {

/// Duration of one server simulation tick, in milliseconds.
pub const SERVER_TICK_MS: u32 = 50;

/// The visual kind of an entity; the client picks artwork from it.
#[derive(Clone, Copy, Debug, PartialEq, Eq, Structural)]
pub enum Art {
    Island,
    Vase,
}

/// Configuration for a pool of packet buffers: every buffer handed out is a
/// zeroed byte vector of the configured size.
#[derive(Clone, Copy, Debug)]
pub struct SimpleBufferPool(pub usize);

impl SimpleBufferPool {
    /// Produces one fresh buffer of the configured size, all zeroes.
    pub fn acquire(&self) -> (r: Vec<u8>)
        ensures
            r@.len() == self.0,
            forall|i: int| 0 <= i < r@.len() ==> r@[i] == 0u8,
    {
        let mut buf: Vec<u8> = Vec::new();
        let mut i: usize = 0;
        while i < self.0
            invariant
                i <= self.0,
                buf@.len() == i,
                forall|j: int| 0 <= j < i ==> buf@[j] == 0u8,
            decreases self.0 - i,
        {
            buf.push(0u8);
            i = i + 1;
        }
        buf
    }
}

} // verus!
