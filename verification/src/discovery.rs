//! Peer discovery: the state machine that locates the remote endpoint
//! before and while streaming. It locks only onto the source of a
//! schema-valid packet, drops back to searching on a liveness timeout, and
//! counts malformed datagrams without ever treating them as a lock signal.

use crate::protocol::decode_packet;
use crate::protocol::parse_packet;
use crate::protocol::Packet;
use crate::protocol::PacketView;
use vstd::prelude::*;

verus! {

/// A peer's endpoint as plain values: IPv4 address packed into an integer
/// (big-endian octet order) and a UDP port.
#[derive(Clone, Copy, PartialEq, Eq, Structural, Debug)]
pub struct PeerAddr {
    pub ip: u32,
    pub port: u16,
}

/// Discovery state: still searching, or locked onto a peer together with
/// the time its last packet arrived.
#[derive(Clone, Copy, PartialEq, Eq, Structural, Debug)]
pub enum SessionState {
    Searching,
    Locked { peer: PeerAddr, last_seen_millis: u64 },
}

/// Where a state sends to: the locked peer, or nowhere while searching.
pub open spec fn target_of(state: SessionState) -> Option<PeerAddr> {
    match state {
        SessionState::Searching => None,
        SessionState::Locked { peer, .. } => Some(peer),
    }
}

/// The state after one inbound datagram: a schema-valid packet locks a
/// searching endpoint onto its source and refreshes liveness of the active
/// peer; packets from third parties and malformed datagrams change nothing.
pub open spec fn discovery_step(
    state: SessionState,
    src: PeerAddr,
    parsed: Option<PacketView>,
    now_millis: u64,
) -> SessionState {
    match parsed {
        Some(_) => match state {
            SessionState::Searching => SessionState::Locked {
                peer: src,
                last_seen_millis: now_millis,
            },
            SessionState::Locked { peer, .. } => if peer == src {
                SessionState::Locked { peer, last_seen_millis: now_millis }
            } else {
                state
            },
        },
        None => state,
    }
}

/// The state after a clock tick: a locked peer silent for longer than the
/// timeout window is dropped, and streaming halts until relocked.
pub open spec fn tick_step(state: SessionState, now_millis: u64, timeout_millis: u64) -> SessionState {
    match state {
        SessionState::Searching => SessionState::Searching,
        SessionState::Locked { peer, last_seen_millis } => if now_millis > last_seen_millis
            && now_millis - last_seen_millis > timeout_millis {
            SessionState::Searching
        } else {
            state
        },
    }
}

/// The discovery/session state machine.
pub struct SessionDiscovery {
    pub state: SessionState,
    pub timeout_millis: u64,
    pub malformed_count: u64,
}

impl SessionDiscovery {
    /// A fresh endpoint knows no peer.
    pub fn new(timeout_millis: u64) -> (r: SessionDiscovery)
        ensures
            r.state == SessionState::Searching,
            r.timeout_millis == timeout_millis,
            r.malformed_count == 0,
    {
        SessionDiscovery {
            state: SessionState::Searching,
            timeout_millis,
            malformed_count: 0,
        }
    }

    /// Feeds one inbound datagram: parses it against the wire schema, steps
    /// the state machine, and hands a valid packet back for demultiplexing.
    /// A malformed datagram is counted (saturating) and never touches the
    /// state.
    pub fn on_datagram(&mut self, src: PeerAddr, bytes: &Vec<u8>, now_millis: u64) -> (r: Option<
        Packet,
    >)
        ensures
            final(self).timeout_millis == old(self).timeout_millis,
            match r {
                Some(p) => {
                    &&& parse_packet(bytes@) == Some(p@)
                    &&& final(self).state == discovery_step(
                        old(self).state,
                        src,
                        parse_packet(bytes@),
                        now_millis,
                    )
                    &&& final(self).malformed_count == old(self).malformed_count
                },
                None => {
                    &&& parse_packet(bytes@) is None
                    &&& final(self).state == old(self).state
                    &&& final(self).malformed_count as int == if old(self).malformed_count
                        < u64::MAX {
                        old(self).malformed_count as int + 1
                    } else {
                        old(self).malformed_count as int
                    }
                },
            },
    {
        match decode_packet(bytes) {
            Some(p) => {
                match self.state {
                    SessionState::Searching => {
                        self.state = SessionState::Locked { peer: src, last_seen_millis: now_millis };
                    },
                    SessionState::Locked { peer, .. } => {
                        if peer == src {
                            self.state = SessionState::Locked {
                                peer,
                                last_seen_millis: now_millis,
                            };
                        }
                    },
                }
                Some(p)
            },
            None => {
                if self.malformed_count < u64::MAX {
                    self.malformed_count = self.malformed_count + 1;
                }
                None
            },
        }
    }

    /// Applies the liveness timeout against the current clock.
    pub fn on_tick(&mut self, now_millis: u64)
        ensures
            final(self).timeout_millis == old(self).timeout_millis,
            final(self).malformed_count == old(self).malformed_count,
            final(self).state == tick_step(old(self).state, now_millis, old(self).timeout_millis),
    {
        match self.state {
            SessionState::Searching => {},
            SessionState::Locked { peer: _, last_seen_millis } => {
                if now_millis > last_seen_millis && now_millis - last_seen_millis
                    > self.timeout_millis {
                    self.state = SessionState::Searching;
                }
            },
        }
    }

    /// The listening endpoint announces itself only while searching.
    pub fn should_announce(&self) -> (r: bool)
        ensures
            r == (self.state is Searching),
    {
        match self.state {
            SessionState::Searching => true,
            SessionState::Locked { .. } => false,
        }
    }

    /// Where the stream currently goes: the locked peer's address.
    pub fn current_target(&self) -> (r: Option<PeerAddr>)
        ensures
            r == target_of(self.state),
    {
        match self.state {
            SessionState::Searching => None,
            SessionState::Locked { peer, .. } => Some(peer),
        }
    }
}

/// Law: a searching endpoint that receives one schema-valid datagram from
/// address `a` locks onto `a`, and from then on its sends target `a`.
pub proof fn lemma_valid_packet_locks_searching(
    src: PeerAddr,
    parsed: Option<PacketView>,
    now_millis: u64,
)
    requires
        parsed is Some,
    ensures
        discovery_step(SessionState::Searching, src, parsed, now_millis) == (SessionState::Locked {
            peer: src,
            last_seen_millis: now_millis,
        }),
        target_of(discovery_step(SessionState::Searching, src, parsed, now_millis)) == Some(src),
{
}

} // verus!
