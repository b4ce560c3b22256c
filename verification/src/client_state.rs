//! A client's view of the session: its own assigned id and the list
//! of remote players it renders.
//!
//! The client counts as connected once the host's `Welcome` arrives.
//! Every `GameState` broadcast replaces the remote-player list, with
//! the client's own id filtered out (echo suppression), and a
//! `PlayerLeft` drops the named player.

use vstd::prelude::*;
use crate::protocol::{PlayerId, PlayerState, ServerMessage};

verus! {

/// The remote players kept from a broadcast: everyone but the local
/// player, if an id has been assigned yet.
pub open spec fn not_local_pred(local: Option<PlayerId>) -> spec_fn(PlayerState) -> bool {
    |p: PlayerState|
        match local {
            Some(my) => p.id != my,
            None => true,
        }
}

/// The players kept when one id leaves.
pub open spec fn not_id_pred(id: PlayerId) -> spec_fn(PlayerState) -> bool {
    |p: PlayerState| p.id != id
}

/// Echo suppression: the client's own id never appears in its stored
/// remote-player list.
pub open spec fn echo_free(local: Option<PlayerId>, remote: Seq<PlayerState>) -> bool {
    match local {
        Some(my) => forall|i: int| 0 <= i < remote.len() ==> (#[trigger] remote[i]).id != my,
        None => true,
    }
}

/// A client's local session view.
pub struct ClientView {
    /// The id the host assigned in its `Welcome`, if it has arrived.
    pub local_id: Option<PlayerId>,
    /// The remote players last received, own id excluded.
    pub remote_players: Vec<PlayerState>,
}

impl ClientView {
    /// The view of a client that has just sent `Join`.
    pub fn new() -> (r: ClientView)
        ensures
            r.local_id is None,
            r.remote_players@.len() == 0,
    {
        let r = ClientView { local_id: None, remote_players: Vec::new() };
        proof {
            assert(r.remote_players@ =~= Seq::<PlayerState>::empty());
        }
        r
    }

    /// Whether the handshake has completed: the client transitions to
    /// connected exactly when `Welcome` has been received.
    pub fn is_connected(&self) -> (r: bool)
        ensures
            r == (self.local_id is Some),
    {
        self.local_id.is_some()
    }

    /// Apply one message from the host. `Welcome` assigns the local
    /// id; `GameState` replaces the remote-player list with everyone
    /// else's states; `PlayerLeft` drops that player; media messages
    /// leave this view unchanged.
    pub fn apply_server_message(&mut self, msg: &ServerMessage)
        ensures
            match msg {
                ServerMessage::Welcome { your_id } => {
                    &&& final(self).local_id == Some(*your_id)
                    &&& final(self).remote_players@ == old(self).remote_players@
                },
                ServerMessage::GameState { players } => {
                    &&& final(self).local_id == old(self).local_id
                    &&& final(self).remote_players@ == players@.filter(
                        not_local_pred(old(self).local_id),
                    )
                },
                ServerMessage::PlayerLeft { id } => {
                    &&& final(self).local_id == old(self).local_id
                    &&& final(self).remote_players@ == old(self).remote_players@.filter(
                        not_id_pred(*id),
                    )
                },
                _ => *final(self) == *old(self),
            },
            *msg matches ServerMessage::GameState { .. } ==> echo_free(
                final(self).local_id,
                final(self).remote_players@,
            ),
            echo_free(old(self).local_id, old(self).remote_players@) && !(*msg matches
            ServerMessage::Welcome { .. }) ==> echo_free(
                final(self).local_id,
                final(self).remote_players@,
            ),
    {
        match msg {
            ServerMessage::Welcome { your_id } => {
                self.local_id = Some(*your_id);
            }
            ServerMessage::GameState { players } => {
                let kept = filter_players_not_local(players, &self.local_id);
                self.remote_players = kept;
                proof {
                    if self.local_id is Some {
                        assert forall|i: int|
                            0 <= i < self.remote_players@.len() implies (
                        #[trigger] self.remote_players@[i]).id != self.local_id.unwrap() by {
                            players@.lemma_filter_pred(not_local_pred(old(self).local_id), i);
                        }
                    }
                }
            }
            ServerMessage::PlayerLeft { id } => {
                let kept = filter_players_not_id(&self.remote_players, *id);
                self.remote_players = kept;
                proof {
                    if echo_free(old(self).local_id, old(self).remote_players@) && self.local_id
                        is Some {
                        assert forall|i: int|
                            0 <= i < self.remote_players@.len() implies (
                        #[trigger] self.remote_players@[i]).id != self.local_id.unwrap() by {
                            let v = self.remote_players@[i];
                            assert(old(self).remote_players@.filter(not_id_pred(*id)).contains(v))
                                by {
                                assert(old(self).remote_players@.filter(not_id_pred(*id))[i] == v);
                            }
                            old(self).remote_players@.lemma_filter_contains_rev(
                                not_id_pred(*id),
                                v,
                            );
                            let j = choose|j: int|
                                0 <= j < old(self).remote_players@.len() && old(
                                    self,
                                ).remote_players@[j] == v;
                        }
                    }
                }
            }
            _ => {}
        }
    }
}

/// Keep the players whose id is not the local one.
fn filter_players_not_local(players: &Vec<PlayerState>, local: &Option<PlayerId>) -> (r: Vec<
    PlayerState,
>)
    ensures
        r@ == players@.filter(not_local_pred(*local)),
{
    let mut r: Vec<PlayerState> = Vec::new();
    proof {
        reveal(Seq::filter);
        assert(players@.take(0) =~= Seq::<PlayerState>::empty());
    }
    let mut i: usize = 0;
    while i < players.len()
        invariant
            i <= players@.len(),
            r@ == players@.take(i as int).filter(not_local_pred(*local)),
        decreases players@.len() - i,
    {
        let p = players[i];
        let keep = match local {
            Some(my) => p.id != *my,
            None => true,
        };
        proof {
            assert(keep == not_local_pred(*local)(p));
            assert(players@.take(i + 1) =~= players@.take(i as int).push(p));
            crate::session::lemma_filter_push(players@.take(i as int), not_local_pred(*local), p);
        }
        if keep {
            r.push(p);
        }
        i = i + 1;
    }
    proof {
        assert(players@.take(players@.len() as int) =~= players@);
    }
    r
}

/// Keep the players whose id is not the departed one.
fn filter_players_not_id(players: &Vec<PlayerState>, id: PlayerId) -> (r: Vec<PlayerState>)
    ensures
        r@ == players@.filter(not_id_pred(id)),
{
    let mut r: Vec<PlayerState> = Vec::new();
    proof {
        reveal(Seq::filter);
        assert(players@.take(0) =~= Seq::<PlayerState>::empty());
    }
    let mut i: usize = 0;
    while i < players.len()
        invariant
            i <= players@.len(),
            r@ == players@.take(i as int).filter(not_id_pred(id)),
        decreases players@.len() - i,
    {
        let p = players[i];
        proof {
            assert((p.id != id) == not_id_pred(id)(p));
            assert(players@.take(i + 1) =~= players@.take(i as int).push(p));
            crate::session::lemma_filter_push(players@.take(i as int), not_id_pred(id), p);
        }
        if p.id != id {
            r.push(p);
        }
        i = i + 1;
    }
    proof {
        assert(players@.take(players@.len() as int) =~= players@);
    }
    r
}

} // verus!
