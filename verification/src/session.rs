//! The host's session manager: the registry of joined clients, their
//! liveness, and the transitions driven by inbound client messages.
//!
//! Clients are identified by an opaque 64-bit address token chosen by
//! the transport layer. The host itself always holds player id 0; every
//! joining client is assigned the next id, counting up from 1.

use vstd::prelude::*;
use crate::protocol::{ClientMessage, PlayerId, PlayerState, ServerMessage};

verus! {

/// A registered client that has not sent anything for longer than this
/// is evicted.
pub const CLIENT_TIMEOUT_MS: u64 = 5000;

/// One registry entry: a client's address token, its assigned player
/// id, and when it was last heard from.
#[derive(Clone, Copy, Debug, PartialEq, Eq, Structural)]
pub struct ClientEntry {
    pub addr: u64,
    pub id: PlayerId,
    pub last_activity_ms: u64,
}

/// A message the session manager wants sent to one client.
pub struct Outbound {
    pub dest: u64,
    pub msg: ServerMessage,
}

/// The host's authoritative session state.
pub struct SessionState {
    /// Joined clients, in join order.
    pub clients: Vec<ClientEntry>,
    /// All player states: the host first, then one per client, in the
    /// same order as `clients`.
    pub players: Vec<PlayerState>,
    /// The id the next joining client will be assigned.
    pub next_id: PlayerId,
}

/// Whether a registry entry has gone silent for longer than the
/// timeout at the given clock reading.
pub open spec fn client_expired(e: ClientEntry, now: u64) -> bool {
    now > e.last_activity_ms + CLIENT_TIMEOUT_MS
}

/// Index of the entry with this address, or -1 if none.
pub open spec fn addr_index(clients: Seq<ClientEntry>, addr: u64) -> int
    decreases clients.len(),
{
    if clients.len() == 0 {
        -1
    } else if clients[0].addr == addr {
        0
    } else {
        let r = addr_index(clients.skip(1), addr);
        if r < 0 {
            -1
        } else {
            1 + r
        }
    }
}

pub open spec fn has_addr(clients: Seq<ClientEntry>, addr: u64) -> bool {
    addr_index(clients, addr) >= 0
}

pub proof fn lemma_addr_index(clients: Seq<ClientEntry>, addr: u64)
    ensures
        has_addr(clients, addr) ==> {
            &&& 0 <= addr_index(clients, addr) < clients.len()
            &&& clients[addr_index(clients, addr)].addr == addr
        },
        !has_addr(clients, addr) ==> forall|i: int|
            0 <= i < clients.len() ==> (#[trigger] clients[i]).addr != addr,
    decreases clients.len(),
{
    if clients.len() > 0 {
        lemma_addr_index(clients.skip(1), addr);
        if clients[0].addr != addr {
            if !has_addr(clients, addr) {
                assert forall|i: int| 0 <= i < clients.len() implies (
                #[trigger] clients[i]).addr != addr by {
                    if i > 0 {
                        assert(clients.skip(1)[i - 1].addr != addr);
                    }
                }
            } else {
                assert(clients[addr_index(clients, addr)] == clients.skip(1)[addr_index(
                    clients.skip(1),
                    addr,
                )]);
            }
        }
    }
}

impl SessionState {
    /// Structural invariant: one player state per client plus the
    /// host's at the front, ids and addresses unique, all assigned ids
    /// below the next free one.
    pub open spec fn wf(&self) -> bool {
        &&& self.next_id >= 1
        &&& self.players@.len() == self.clients@.len() + 1
        &&& self.players@[0].id == 0
        &&& forall|i: int|
            0 <= i < self.clients@.len() ==> (#[trigger] self.players@[i + 1]).id
                == self.clients@[i].id
        &&& forall|i: int|
            0 <= i < self.clients@.len() ==> 1 <= (#[trigger] self.clients@[i]).id < self.next_id
        &&& forall|i: int, j: int|
            0 <= i < j < self.clients@.len() ==> (#[trigger] self.clients@[i]).addr != (
            #[trigger] self.clients@[j]).addr
        &&& forall|i: int, j: int|
            0 <= i < j < self.clients@.len() ==> (#[trigger] self.clients@[i]).id != (
            #[trigger] self.clients@[j]).id
    }

    /// A fresh session holding only the host's player state.
    pub fn new(host: PlayerState) -> (r: SessionState)
        requires
            host.id == 0,
        ensures
            r.wf(),
            r.clients@.len() == 0,
            r.players@ == seq![host],
            r.next_id == 1,
    {
        let mut players: Vec<PlayerState> = Vec::new();
        players.push(host);
        proof {
            assert(players@ =~= seq![host]);
        }
        SessionState { clients: Vec::new(), players, next_id: 1 }
    }

    /// Find a client by address token.
    fn find_addr(&self, addr: u64) -> (r: Option<usize>)
        ensures
            match r {
                Some(i) => i == addr_index(self.clients@, addr) && i < self.clients@.len()
                    && self.clients@[i as int].addr == addr,
                None => !has_addr(self.clients@, addr),
            },
    {
        proof {
            lemma_addr_index(self.clients@, addr);
        }
        let mut i: usize = 0;
        while i < self.clients.len()
            invariant
                i <= self.clients@.len(),
                forall|j: int| 0 <= j < i ==> (#[trigger] self.clients@[j]).addr != addr,
            decreases self.clients@.len() - i,
        {
            if self.clients[i].addr == addr {
                proof {
                    lemma_addr_index_found(self.clients@, addr, i as int);
                }
                return Some(i);
            }
            i = i + 1;
        }
        proof {
            if has_addr(self.clients@, addr) {
                assert(self.clients@[addr_index(self.clients@, addr)].addr == addr);
            }
        }
        None
    }

    /// Register a joining client: a new address is assigned the next
    /// player id and a spawn state; a known address is refused.
    pub fn handle_join(&mut self, addr: u64, now_ms: u64, spawn: PlayerState) -> (r: Option<
        PlayerId,
    >)
        requires
            old(self).wf(),
            old(self).next_id < u64::MAX,
        ensures
            final(self).wf(),
            has_addr(old(self).clients@, addr) ==> {
                &&& r is None
                &&& *final(self) == *old(self)
            },
            !has_addr(old(self).clients@, addr) ==> {
                &&& r == Some(old(self).next_id)
                &&& final(self).clients@ == old(self).clients@.push(
                    ClientEntry { addr, id: old(self).next_id, last_activity_ms: now_ms },
                )
                &&& final(self).players@ == old(self).players@.push(
                    PlayerState { id: old(self).next_id, ..spawn },
                )
                &&& final(self).next_id == old(self).next_id + 1
            },
    {
        if self.find_addr(addr).is_some() {
            return None;
        }
        let id = self.next_id;
        self.next_id = self.next_id + 1;
        self.clients.push(ClientEntry { addr, id, last_activity_ms: now_ms });
        self.players.push(PlayerState { id, ..spawn });
        proof {
            lemma_addr_index(old(self).clients@, addr);
        }
        Some(id)
    }

    /// Apply a position/orientation update from a registered client
    /// and refresh its liveness stamp; an unknown sender is ignored.
    pub fn handle_player_update(
        &mut self,
        addr: u64,
        now_ms: u64,
        x_bits: u32,
        y_bits: u32,
        z_bits: u32,
        yaw_bits: u32,
        pitch_bits: u32,
    ) -> (r: bool)
        requires
            old(self).wf(),
        ensures
            final(self).wf(),
            r == has_addr(old(self).clients@, addr),
            !r ==> *final(self) == *old(self),
            r ==> {
                let k = addr_index(old(self).clients@, addr);
                &&& final(self).clients@ == old(self).clients@.update(
                    k,
                    ClientEntry { last_activity_ms: now_ms, ..old(self).clients@[k] },
                )
                &&& final(self).players@ == old(self).players@.update(
                    k + 1,
                    PlayerState {
                        id: old(self).clients@[k].id,
                        x_bits,
                        y_bits,
                        z_bits,
                        yaw_bits,
                        pitch_bits,
                    },
                )
                &&& final(self).next_id == old(self).next_id
            },
    {
        match self.find_addr(addr) {
            Some(k) => {
                let plen = self.players.len();
                proof {
                    assert(k + 1 < plen);
                }
                let entry = self.clients[k];
                self.clients[k] = ClientEntry { last_activity_ms: now_ms, ..entry };
                self.players[k + 1] = PlayerState {
                    id: entry.id,
                    x_bits,
                    y_bits,
                    z_bits,
                    yaw_bits,
                    pitch_bits,
                };
                true
            }
            None => false,
        }
    }

    /// Overwrite the stored state of the player with the given id
    /// (the host's own id included); returns whether the id was found.
    pub fn set_player_state(
        &mut self,
        id: PlayerId,
        x_bits: u32,
        y_bits: u32,
        z_bits: u32,
        yaw_bits: u32,
        pitch_bits: u32,
    ) -> (r: bool)
        requires
            old(self).wf(),
        ensures
            final(self).wf(),
            final(self).clients@ == old(self).clients@,
            final(self).next_id == old(self).next_id,
            r == (exists|i: int|
                0 <= i < old(self).players@.len() && (#[trigger] old(self).players@[i]).id == id),
            !r ==> *final(self) == *old(self),
            r ==> exists|i: int|
                {
                    &&& 0 <= i < old(self).players@.len()
                    &&& (#[trigger] old(self).players@[i]).id == id
                    &&& final(self).players@ == old(self).players@.update(
                        i,
                        PlayerState { id, x_bits, y_bits, z_bits, yaw_bits, pitch_bits },
                    )
                },
    {
        let mut i: usize = 0;
        while i < self.players.len()
            invariant
                old(self).wf(),
                i <= self.players@.len(),
                forall|j: int| 0 <= j < i ==> (#[trigger] self.players@[j]).id != id,
                *self == *old(self),
            decreases self.players@.len() - i,
        {
            if self.players[i].id == id {
                self.players[i] = PlayerState { id, x_bits, y_bits, z_bits, yaw_bits, pitch_bits };
                proof {
                    assert(self.next_id == old(self).next_id);
                    assert(self.clients@ == old(self).clients@);
                    assert(old(self).players@[i as int].id == id);
                    assert(self.players@ =~= old(self).players@.update(
                        i as int,
                        PlayerState { id, x_bits, y_bits, z_bits, yaw_bits, pitch_bits },
                    ));
                    assert forall|m: int| 0 <= m < self.players@.len() implies (
                    #[trigger] self.players@[m]).id == old(self).players@[m].id by {
                        if m != i {
                            assert(self.players@[m] == old(self).players@[m]);
                        }
                    }
                }
                return true;
            }
            i = i + 1;
        }
        false
    }

    /// Remove a client by address; tell every remaining client that
    /// the player left. An unknown sender changes nothing.
    pub fn handle_leave(&mut self, addr: u64) -> (r: Option<(PlayerId, Vec<Outbound>)>)
        requires
            old(self).wf(),
        ensures
            final(self).wf(),
            !has_addr(old(self).clients@, addr) ==> {
                &&& r is None
                &&& *final(self) == *old(self)
            },
            has_addr(old(self).clients@, addr) ==> {
                let k = addr_index(old(self).clients@, addr);
                &&& r is Some
                &&& r.unwrap().0 == old(self).clients@[k].id
                &&& final(self).clients@ == old(self).clients@.remove(k)
                &&& final(self).players@ == old(self).players@.remove(k + 1)
                &&& final(self).next_id == old(self).next_id
                &&& outbound_player_left(
                    (r.unwrap().1)@,
                    old(self).clients@[k].id,
                    final(self).clients@,
                )
            },
    {
        match self.find_addr(addr) {
            Some(k) => {
                let plen = self.players.len();
                proof {
                    assert(k + 1 < plen);
                }
                let entry = self.clients.remove(k);
                self.players.remove(k + 1);
                proof {
                    old(self).clients@.remove_ensures(k as int);
                    old(self).players@.remove_ensures(k + 1);
                    assert(self.players@[0] == old(self).players@[0]);
                    assert forall|i: int|
                        0 <= i < self.clients@.len() implies (#[trigger] self.players@[i + 1]).id
                        == self.clients@[i].id by {
                        if i < k {
                            assert(self.players@[i + 1] == old(self).players@[i + 1]);
                            assert(self.clients@[i] == old(self).clients@[i]);
                        } else {
                            assert(self.players@[i + 1] == old(self).players@[i + 2]);
                            assert(self.clients@[i] == old(self).clients@[i + 1]);
                        }
                    }
                    assert forall|i: int, j: int|
                        0 <= i < j < self.clients@.len() implies (
                    #[trigger] self.clients@[i]).addr != (#[trigger] self.clients@[j]).addr by {
                        lemma_remove_keeps_distinct(old(self).clients@, k as int, i, j);
                    }
                    assert forall|i: int, j: int|
                        0 <= i < j < self.clients@.len() implies (#[trigger] self.clients@[i]).id
                        != (#[trigger] self.clients@[j]).id by {
                        lemma_remove_keeps_distinct(old(self).clients@, k as int, i, j);
                    }
                }
                let outs = self.player_left_broadcast(entry.id);
                Some((entry.id, outs))
            }
            None => None,
        }
    }

    /// The liveness sweep: remove every client whose last activity is
    /// older than the timeout, and build one `PlayerLeft` message per
    /// evicted id for each surviving client. Returns the evicted ids
    /// and the messages to send.
    pub fn evict_timed_out(&mut self, now_ms: u64) -> (r: (Vec<PlayerId>, Vec<Outbound>))
        requires
            old(self).wf(),
            old(self).clients@.len() <= 0xFFFF,
        ensures
            final(self).wf(),
            final(self).next_id == old(self).next_id,
            final(self).clients@ == old(self).clients@.filter(keep_pred(now_ms)),
            final(self).players@ == seq![old(self).players@[0]] + surviving_players(
                old(self).players@.skip(1),
                old(self).clients@,
                now_ms,
            ),
            r.0@ == old(self).clients@.filter(evict_pred(now_ms)).map_values(
                |e: ClientEntry| e.id,
            ),
            r.1@.len() == r.0@.len() * final(self).clients@.len(),
            forall|a: int, b: int|
                0 <= a < r.0@.len() && 0 <= b < final(self).clients@.len() ==> {
                    &&& (#[trigger] r.1@[a * final(self).clients@.len() + b]).dest
                        == final(self).clients@[b].addr
                    &&& r.1@[a * final(self).clients@.len() + b].msg@
                        == crate::wire::ServerMessageView::PlayerLeft { id: r.0@[a] }
                },
    {
        let ghost keep = keep_pred(now_ms);
        let ghost dropped = evict_pred(now_ms);
        let mut new_clients: Vec<ClientEntry> = Vec::new();
        let mut new_players: Vec<PlayerState> = Vec::new();
        let mut evicted_ids: Vec<PlayerId> = Vec::new();
        new_players.push(self.players[0]);
        proof {
            assert(old(self).clients@.take(0) =~= Seq::<ClientEntry>::empty());
            assert(old(self).players@.skip(1).take(0) =~= Seq::<PlayerState>::empty());
            assert(new_players@ =~= seq![old(self).players@[0]] + surviving_players(
                Seq::<PlayerState>::empty(),
                Seq::<ClientEntry>::empty(),
                now_ms,
            ));
            reveal(Seq::filter);
        }
        let mut i: usize = 0;
        while i < self.clients.len()
            invariant
                old(self).wf(),
                *self == *old(self),
                keep == keep_pred(now_ms),
                dropped == evict_pred(now_ms),
                i <= self.clients@.len(),
                new_clients@ == old(self).clients@.take(i as int).filter(keep),
                evicted_ids@ == old(self).clients@.take(i as int).filter(dropped).map_values(
                    |e: ClientEntry| e.id,
                ),
                new_players@ == seq![old(self).players@[0]] + surviving_players(
                    old(self).players@.skip(1).take(i as int),
                    old(self).clients@.take(i as int),
                    now_ms,
                ),
                forall|a: int|
                    0 <= a < new_clients@.len() ==> exists|j: int|
                        0 <= j < i && (#[trigger] new_clients@[a]) == old(self).clients@[j],
            decreases self.clients@.len() - i,
        {
            let entry = self.clients[i];
            let expired = now_ms > CLIENT_TIMEOUT_MS && now_ms - CLIENT_TIMEOUT_MS
                > entry.last_activity_ms;
            proof {
                assert(expired == client_expired(entry, now_ms));
                assert(old(self).clients@.take(i + 1) =~= old(self).clients@.take(i as int).push(
                    entry,
                ));
                assert(old(self).players@.skip(1).take(i + 1) =~= old(self).players@.skip(
                    1,
                ).take(i as int).push(old(self).players@[i + 1]));
                lemma_filter_push(old(self).clients@.take(i as int), keep, entry);
                lemma_filter_push(old(self).clients@.take(i as int), dropped, entry);
                lemma_surviving_players_push(
                    old(self).players@.skip(1).take(i as int),
                    old(self).clients@.take(i as int),
                    old(self).players@[i + 1],
                    entry,
                    now_ms,
                );
            }
            if expired {
                evicted_ids.push(entry.id);
                proof {
                    assert(evicted_ids@ =~= old(self).clients@.take(i + 1).filter(
                        dropped,
                    ).map_values(|e: ClientEntry| e.id));
                    assert(new_players@ =~= seq![old(self).players@[0]] + surviving_players(
                        old(self).players@.skip(1).take(i + 1),
                        old(self).clients@.take(i + 1),
                        now_ms,
                    ));
                }
            } else {
                new_clients.push(entry);
                new_players.push(self.players[i + 1]);
                proof {
                    assert(new_players@ =~= (seq![old(self).players@[0]] + surviving_players(
                        old(self).players@.skip(1).take(i as int),
                        old(self).clients@.take(i as int),
                        now_ms,
                    )).push(old(self).players@[i + 1]));
                    assert(seq![old(self).players@[0]] + surviving_players(
                        old(self).players@.skip(1).take(i + 1),
                        old(self).clients@.take(i + 1),
                        now_ms,
                    ) =~= (seq![old(self).players@[0]] + surviving_players(
                        old(self).players@.skip(1).take(i as int),
                        old(self).clients@.take(i as int),
                        now_ms,
                    )).push(old(self).players@[i + 1]));
                    assert forall|a: int| 0 <= a < new_clients@.len() implies exists|j: int|
                        0 <= j < i + 1 && (#[trigger] new_clients@[a]) == old(self).clients@[j] by {
                        if a < new_clients@.len() - 1 {
                            let j = choose|j: int|
                                0 <= j < i && (#[trigger] new_clients@[a]) == old(
                                    self,
                                ).clients@[j];
                            assert(0 <= j < i + 1 && new_clients@[a] == old(self).clients@[j]);
                        } else {
                            assert(new_clients@[a] == old(self).clients@[i as int]);
                        }
                    }
                }
            }
            i = i + 1;
        }
        proof {
            assert(old(self).clients@.take(self.clients@.len() as int) =~= old(self).clients@);
            assert(old(self).players@.skip(1).take(self.clients@.len() as int) =~= old(
                self,
            ).players@.skip(1));
        }
        self.clients = new_clients;
        self.players = new_players;
        proof {
            lemma_filter_distinct(old(self).clients@, keep);
            lemma_surviving_alignment(old(self).players@.skip(1), old(self).clients@, now_ms);
            old(self).clients@.lemma_filter_len(keep);
            old(self).clients@.lemma_filter_len(dropped);
            assert forall|x: int|
                0 <= x < self.clients@.len() implies 1 <= (#[trigger] self.clients@[x]).id
                < self.next_id by {
                assert(old(self).clients@.filter(keep)[x] == self.clients@[x]);
                assert(old(self).clients@.filter(keep).contains(self.clients@[x]));
                old(self).clients@.lemma_filter_contains_rev(keep, self.clients@[x]);
                let j = choose|j: int|
                    0 <= j < old(self).clients@.len() && old(self).clients@[j]
                        == self.clients@[x];
            }
            assert(evicted_ids@.len() * self.clients@.len() <= usize::MAX) by (nonlinear_arith)
                requires
                    evicted_ids@.len() <= 0xFFFF,
                    self.clients@.len() <= 0xFFFF,
            ;
        }
        let outs = self.broadcast_left(&evicted_ids);
        (evicted_ids, outs)
    }

    /// For each given id, one `PlayerLeft` message per registered
    /// client, grouped by id.
    fn broadcast_left(&self, ids: &Vec<PlayerId>) -> (r: Vec<Outbound>)
        requires
            ids@.len() * self.clients@.len() <= usize::MAX,
        ensures
            r@.len() == ids@.len() * self.clients@.len(),
            forall|a: int, b: int|
                0 <= a < ids@.len() && 0 <= b < self.clients@.len() ==> {
                    &&& (#[trigger] r@[a * self.clients@.len() + b]).dest
                        == self.clients@[b].addr
                    &&& r@[a * self.clients@.len() + b].msg@
                        == crate::wire::ServerMessageView::PlayerLeft { id: ids@[a] }
                },
    {
        let mut outs: Vec<Outbound> = Vec::new();
        let cl = self.clients.len();
        let mut a: usize = 0;
        while a < ids.len()
            invariant
                a <= ids@.len(),
                cl == self.clients@.len(),
                ids@.len() * cl <= usize::MAX,
                outs@.len() == a * cl,
                forall|x: int, y: int|
                    0 <= x < a && 0 <= y < cl ==> {
                        &&& (#[trigger] outs@[x * cl + y]).dest == self.clients@[y].addr
                        &&& outs@[x * cl + y].msg@ == crate::wire::ServerMessageView::PlayerLeft {
                            id: ids@[x],
                        }
                    },
            decreases ids@.len() - a,
        {
            let id = ids[a];
            let mut b: usize = 0;
            while b < cl
                invariant
                    b <= cl,
                    cl == self.clients@.len(),
                    a < ids@.len(),
                    ids@.len() * cl <= usize::MAX,
                    id == ids@[a as int],
                    outs@.len() == a * cl + b,
                    forall|x: int, y: int|
                        0 <= x < a && 0 <= y < cl ==> {
                            &&& (#[trigger] outs@[x * cl + y]).dest == self.clients@[y].addr
                            &&& outs@[x * cl + y].msg@
                                == crate::wire::ServerMessageView::PlayerLeft { id: ids@[x] }
                        },
                    forall|y: int|
                        0 <= y < b ==> {
                            &&& (#[trigger] outs@[a * cl + y]).dest == self.clients@[y].addr
                            &&& outs@[a * cl + y].msg@
                                == crate::wire::ServerMessageView::PlayerLeft { id: ids@[a as int] }
                        },
                decreases cl - b,
            {
                proof {
                    assert((a + 1) * cl <= ids@.len() * cl) by (nonlinear_arith)
                        requires
                            a < ids@.len(),
                            cl >= 0,
                    ;
                    assert(a * cl + b < (a + 1) * cl) by (nonlinear_arith)
                        requires
                            b < cl,
                    ;
                }
                outs.push(Outbound {
                    dest: self.clients[b].addr,
                    msg: ServerMessage::PlayerLeft { id },
                });
                proof {
                    assert forall|x: int, y: int|
                        #![trigger outs@[x * cl + y]]
                        0 <= x < a && 0 <= y < cl implies 0 <= x * cl + y && x * cl + y < a * (
                    cl as int) by {
                        assert(0 <= x * cl + y < a * (cl as int)) by (nonlinear_arith)
                            requires
                                0 <= x < a,
                                0 <= y < cl,
                        ;
                    }
                }
                b = b + 1;
            }
            a = a + 1;
            proof {
                assert(a * cl == (a - 1) * cl + cl) by (nonlinear_arith);
            }
        }
        outs
    }

    /// A copy of every stored player state, host first.
    pub fn players_snapshot(&self) -> (r: Vec<PlayerState>)
        ensures
            r@ == self.players@,
    {
        let mut r: Vec<PlayerState> = Vec::new();
        let mut i: usize = 0;
        while i < self.players.len()
            invariant
                i <= self.players@.len(),
                r@ == self.players@.take(i as int),
            decreases self.players@.len() - i,
        {
            r.push(self.players[i]);
            proof {
                assert(self.players@.take(i + 1) =~= self.players@.take(i as int).push(
                    self.players@[i as int],
                ));
            }
            i = i + 1;
        }
        proof {
            assert(self.players@.take(self.players@.len() as int) =~= self.players@);
        }
        r
    }

    /// The state-synchronization broadcast: one `GameState` message
    /// holding every player state, to be sent to every client address.
    pub fn game_state_broadcast(&self) -> (r: (ServerMessage, Vec<u64>))
        ensures
            r.0@ == (crate::wire::ServerMessageView::GameState { players: self.players@ }),
            r.1@.len() == self.clients@.len(),
            forall|i: int|
                0 <= i < self.clients@.len() ==> r.1@[i] == (#[trigger] self.clients@[i]).addr,
    {
        let players = self.players_snapshot();
        let mut addrs: Vec<u64> = Vec::new();
        let mut i: usize = 0;
        while i < self.clients.len()
            invariant
                i <= self.clients@.len(),
                addrs@.len() == i,
                forall|j: int| 0 <= j < i ==> addrs@[j] == (#[trigger] self.clients@[j]).addr,
            decreases self.clients@.len() - i,
        {
            addrs.push(self.clients[i].addr);
            i = i + 1;
        }
        (ServerMessage::GameState { players }, addrs)
    }

    /// Handle one decoded datagram from a client address: register a
    /// join and answer it with `Welcome`, apply a position update from
    /// a registered sender, or carry out a leave and announce it.
    pub fn handle_message(&mut self, addr: u64, msg: &ClientMessage, now_ms: u64, spawn:
        PlayerState) -> (r: Vec<Outbound>)
        requires
            old(self).wf(),
            old(self).next_id < u64::MAX,
        ensures
            final(self).wf(),
            msg is Join && !has_addr(old(self).clients@, addr) ==> {
                &&& final(self).clients@ == old(self).clients@.push(
                    ClientEntry { addr, id: old(self).next_id, last_activity_ms: now_ms },
                )
                &&& final(self).players@ == old(self).players@.push(
                    PlayerState { id: old(self).next_id, ..spawn },
                )
                &&& final(self).next_id == old(self).next_id + 1
                &&& r@.len() == 1
                &&& r@[0].dest == addr
                &&& r@[0].msg@ == (crate::wire::ServerMessageView::Welcome {
                    your_id: old(self).next_id,
                })
            },
            msg is Join && has_addr(old(self).clients@, addr) ==> {
                &&& *final(self) == *old(self)
                &&& r@.len() == 0
            },
            *msg matches ClientMessage::PlayerUpdate { x_bits, y_bits, z_bits, yaw_bits, pitch_bits }
                ==> {
                &&& r@.len() == 0
                &&& !has_addr(old(self).clients@, addr) ==> *final(self) == *old(self)
                &&& has_addr(old(self).clients@, addr) ==> {
                    let k = addr_index(old(self).clients@, addr);
                    &&& final(self).clients@ == old(self).clients@.update(
                        k,
                        ClientEntry { last_activity_ms: now_ms, ..old(self).clients@[k] },
                    )
                    &&& final(self).players@ == old(self).players@.update(
                        k + 1,
                        PlayerState {
                            id: old(self).clients@[k].id,
                            x_bits,
                            y_bits,
                            z_bits,
                            yaw_bits,
                            pitch_bits,
                        },
                    )
                    &&& final(self).next_id == old(self).next_id
                }
            },
            msg is Leave && !has_addr(old(self).clients@, addr) ==> {
                &&& *final(self) == *old(self)
                &&& r@.len() == 0
            },
            msg is Leave && has_addr(old(self).clients@, addr) ==> {
                let k = addr_index(old(self).clients@, addr);
                &&& final(self).clients@ == old(self).clients@.remove(k)
                &&& final(self).players@ == old(self).players@.remove(k + 1)
                &&& final(self).next_id == old(self).next_id
                &&& outbound_player_left(r@, old(self).clients@[k].id, final(self).clients@)
            },
    {
        match msg {
            ClientMessage::Join => {
                match self.handle_join(addr, now_ms, spawn) {
                    Some(id) => {
                        let mut outs: Vec<Outbound> = Vec::new();
                        outs.push(Outbound { dest: addr, msg: ServerMessage::Welcome {
                            your_id: id,
                        } });
                        outs
                    }
                    None => Vec::new(),
                }
            }
            ClientMessage::PlayerUpdate { x_bits, y_bits, z_bits, yaw_bits, pitch_bits } => {
                self.handle_player_update(addr, now_ms, *x_bits, *y_bits, *z_bits, *yaw_bits,
                    *pitch_bits);
                Vec::new()
            }
            ClientMessage::Leave => {
                match self.handle_leave(addr) {
                    Some((_, outs)) => outs,
                    None => Vec::new(),
                }
            }
        }
    }

    /// Build one `PlayerLeft` message per currently registered client.
    fn player_left_broadcast(&self, id: PlayerId) -> (r: Vec<Outbound>)
        ensures
            outbound_player_left(r@, id, self.clients@),
    {
        let mut outs: Vec<Outbound> = Vec::new();
        let mut i: usize = 0;
        while i < self.clients.len()
            invariant
                i <= self.clients@.len(),
                outs@.len() == i,
                forall|j: int|
                    0 <= j < i ==> {
                        &&& (#[trigger] outs@[j]).dest == self.clients@[j].addr
                        &&& outs@[j].msg@ == crate::wire::ServerMessageView::PlayerLeft { id }
                    },
            decreases self.clients@.len() - i,
        {
            outs.push(Outbound { dest: self.clients[i].addr, msg: ServerMessage::PlayerLeft { id } });
            i = i + 1;
        }
        outs
    }
}

/// The clients the liveness sweep keeps at this clock reading.
pub open spec fn keep_pred(now: u64) -> spec_fn(ClientEntry) -> bool {
    |e: ClientEntry| !client_expired(e, now)
}

/// The clients the liveness sweep evicts at this clock reading.
pub open spec fn evict_pred(now: u64) -> spec_fn(ClientEntry) -> bool {
    |e: ClientEntry| client_expired(e, now)
}

/// The player states kept by the liveness sweep: those aligned with a
/// client that is not expired. `players` holds the per-client states,
/// aligned index by index with `clients`.
pub open spec fn surviving_players(
    players: Seq<PlayerState>,
    clients: Seq<ClientEntry>,
    now: u64,
) -> Seq<PlayerState>
    decreases clients.len(),
{
    if clients.len() == 0 {
        Seq::<PlayerState>::empty()
    } else {
        let rest = surviving_players(players.skip(1), clients.skip(1), now);
        if client_expired(clients[0], now) {
            rest
        } else {
            seq![players[0]] + rest
        }
    }
}

pub proof fn lemma_surviving_players_push(
    players: Seq<PlayerState>,
    clients: Seq<ClientEntry>,
    p: PlayerState,
    e: ClientEntry,
    now: u64,
)
    requires
        players.len() == clients.len(),
    ensures
        surviving_players(players.push(p), clients.push(e), now) == surviving_players(
            players,
            clients,
            now,
        ) + (if client_expired(e, now) {
            Seq::<PlayerState>::empty()
        } else {
            seq![p]
        }),
    decreases clients.len(),
{
    if clients.len() == 0 {
        assert(players.push(p).skip(1) =~= Seq::<PlayerState>::empty());
        assert(clients.push(e).skip(1) =~= Seq::<ClientEntry>::empty());
        assert(surviving_players(
            Seq::<PlayerState>::empty(),
            Seq::<ClientEntry>::empty(),
            now,
        ) =~= Seq::<PlayerState>::empty());
        assert(clients.push(e)[0] == e);
        assert(players.push(p)[0] == p);
        assert(surviving_players(players, clients, now) =~= Seq::<PlayerState>::empty());
        if client_expired(e, now) {
            assert(surviving_players(players.push(p), clients.push(e), now)
                =~= surviving_players(players, clients, now) + Seq::<PlayerState>::empty());
        } else {
            assert(surviving_players(players.push(p), clients.push(e), now)
                =~= surviving_players(players, clients, now) + seq![p]);
        }
    } else {
        assert(players.push(p).skip(1) =~= players.skip(1).push(p));
        assert(clients.push(e).skip(1) =~= clients.skip(1).push(e));
        lemma_surviving_players_push(players.skip(1), clients.skip(1), p, e, now);
        assert(players.push(p)[0] == players[0]);
        assert(clients.push(e)[0] == clients[0]);
        if !client_expired(clients[0], now) {
            assert(surviving_players(players.push(p), clients.push(e), now) =~= surviving_players(
                players,
                clients,
                now,
            ) + (if client_expired(e, now) {
                Seq::<PlayerState>::empty()
            } else {
                seq![p]
            }));
        }
    }
}

/// Appending one element to a filtered sequence.
pub proof fn lemma_filter_push<A>(s: Seq<A>, pred: spec_fn(A) -> bool, x: A)
    ensures
        s.push(x).filter(pred) == (if pred(x) {
            s.filter(pred).push(x)
        } else {
            s.filter(pred)
        }),
{
    reveal(Seq::filter);
    assert(s.push(x).drop_last() =~= s);
    assert(s.push(x).last() == x);
}

/// Filtering a registry whose addresses and ids are pairwise distinct
/// keeps them pairwise distinct.
pub proof fn lemma_filter_distinct(s: Seq<ClientEntry>, pred: spec_fn(ClientEntry) -> bool)
    requires
        forall|i: int, j: int|
            0 <= i < j < s.len() ==> (#[trigger] s[i]).addr != (#[trigger] s[j]).addr,
        forall|i: int, j: int|
            0 <= i < j < s.len() ==> (#[trigger] s[i]).id != (#[trigger] s[j]).id,
    ensures
        forall|x: int, y: int|
            0 <= x < y < s.filter(pred).len() ==> (#[trigger] s.filter(pred)[x]).addr != (
            #[trigger] s.filter(pred)[y]).addr,
        forall|x: int, y: int|
            0 <= x < y < s.filter(pred).len() ==> (#[trigger] s.filter(pred)[x]).id != (
            #[trigger] s.filter(pred)[y]).id,
    decreases s.len(),
{
    reveal(Seq::filter);
    if s.len() > 0 {
        let rest = s.drop_last();
        let last = s.last();
        assert(forall|i: int| 0 <= i < rest.len() ==> rest[i] == s[i]);
        lemma_filter_distinct(rest, pred);
        let f = s.filter(pred);
        let fr = rest.filter(pred);
        rest.lemma_filter_len(pred);
        if pred(last) {
            assert(f == fr.push(last));
            assert forall|x: int, y: int|
                0 <= x < y < f.len() implies (#[trigger] f[x]).addr != (#[trigger] f[y]).addr && (
            f[x]).id != (f[y]).id by {
                if y < f.len() - 1 {
                    assert(f[x] == fr[x] && f[y] == fr[y]);
                } else {
                    assert(f[y] == last);
                    assert(f[x] == fr[x]);
                    assert(fr.contains(fr[x])) by {
                        assert(fr[x] == fr[x]);
                    }
                    rest.lemma_filter_contains_rev(pred, fr[x]);
                    let j = choose|j: int| 0 <= j < rest.len() && rest[j] == fr[x];
                    assert(s[j] == fr[x]);
                    assert(j < s.len() - 1);
                    assert(s[j].addr != s[s.len() - 1].addr);
                    assert(s[j].id != s[s.len() - 1].id);
                }
            }
        } else {
            assert(f == fr);
        }
    }
}

/// The surviving player states line up one to one, id for id, with the
/// surviving registry entries.
pub proof fn lemma_surviving_alignment(
    players: Seq<PlayerState>,
    clients: Seq<ClientEntry>,
    now: u64,
)
    requires
        players.len() == clients.len(),
        forall|j: int| 0 <= j < clients.len() ==> (#[trigger] players[j]).id == clients[j].id,
    ensures
        surviving_players(players, clients, now).len() == clients.filter(keep_pred(now)).len(),
        forall|x: int|
            0 <= x < surviving_players(players, clients, now).len() ==> (
            #[trigger] surviving_players(players, clients, now)[x]).id == clients.filter(
                keep_pred(now),
            )[x].id,
    decreases clients.len(),
{
    let pred = keep_pred(now);
    reveal(Seq::filter);
    if clients.len() == 0 {
        assert(clients.filter(pred).len() == 0);
    } else {
        let ptail = players.skip(1);
        let ctail = clients.skip(1);
        assert(forall|j: int| 0 <= j < ctail.len() ==> (#[trigger] ptail[j]).id == ctail[j].id)
            by {
            assert(forall|j: int|
                0 <= j < ctail.len() ==> ptail[j] == players[j + 1] && (#[trigger] ctail[j])
                    == clients[j + 1]);
        }
        lemma_surviving_alignment(ptail, ctail, now);
        assert(clients =~= seq![clients[0]] + ctail);
        Seq::<ClientEntry>::filter_distributes_over_add(seq![clients[0]], ctail, pred);
        assert(seq![clients[0]].drop_last() =~= Seq::<ClientEntry>::empty());
        assert(Seq::<ClientEntry>::empty().filter(pred) =~= Seq::<ClientEntry>::empty());
        if pred(clients[0]) {
            assert(seq![clients[0]].filter(pred) =~= seq![clients[0]]);
            assert(clients.filter(pred) == seq![clients[0]] + ctail.filter(pred));
            assert(surviving_players(players, clients, now) == seq![players[0]]
                + surviving_players(ptail, ctail, now));
            assert forall|x: int|
                0 <= x < surviving_players(players, clients, now).len() implies (
            #[trigger] surviving_players(players, clients, now)[x]).id == clients.filter(
                pred,
            )[x].id by {
                if x > 0 {
                    assert(surviving_players(players, clients, now)[x] == surviving_players(
                        ptail,
                        ctail,
                        now,
                    )[x - 1]);
                    assert(clients.filter(pred)[x] == ctail.filter(pred)[x - 1]);
                }
            }
        } else {
            assert(seq![clients[0]].filter(pred) =~= Seq::<ClientEntry>::empty());
            assert(clients.filter(pred) =~= ctail.filter(pred));
            assert(surviving_players(players, clients, now) == surviving_players(
                ptail,
                ctail,
                now,
            ));
        }
    }
}

/// The outbound batch that announces a departed player: exactly one
/// `PlayerLeft` message per remaining client, in registry order.
pub open spec fn outbound_player_left(outs: Seq<Outbound>, id: PlayerId, clients: Seq<
    ClientEntry,
>) -> bool {
    &&& outs.len() == clients.len()
    &&& forall|j: int|
        0 <= j < outs.len() ==> {
            &&& (#[trigger] outs[j]).dest == clients[j].addr
            &&& outs[j].msg@ == crate::wire::ServerMessageView::PlayerLeft { id }
        }
}

pub proof fn lemma_addr_index_found(clients: Seq<ClientEntry>, addr: u64, i: int)
    requires
        0 <= i < clients.len(),
        clients[i].addr == addr,
        forall|j: int| 0 <= j < i ==> (#[trigger] clients[j]).addr != addr,
    ensures
        addr_index(clients, addr) == i,
    decreases clients.len(),
{
    if i > 0 {
        assert(clients.skip(1)[i - 1].addr == addr);
        assert forall|j: int| 0 <= j < i - 1 implies (#[trigger] clients.skip(1)[j]).addr
            != addr by {
            assert(clients.skip(1)[j] == clients[j + 1]);
        }
        lemma_addr_index_found(clients.skip(1), addr, i - 1);
    }
}

/// Removing one element keeps pairwise-distinct fields distinct.
pub proof fn lemma_remove_keeps_distinct(clients: Seq<ClientEntry>, k: int, i: int, j: int)
    requires
        0 <= k < clients.len(),
        0 <= i < j < clients.remove(k).len(),
    ensures
        clients.remove(k)[i] == clients[if i < k {
            i
        } else {
            i + 1
        }],
        clients.remove(k)[j] == clients[if j < k {
            j
        } else {
            j + 1
        }],
{
}

} // verus!
