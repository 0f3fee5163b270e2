//! The per-connection state the game runner keeps: the queue of moves a
//! player has submitted, and their resignation latch, driven by the actions
//! the transport hands over.

use std::collections::VecDeque;

use vstd::prelude::*;

use crate::map::Move;
use crate::player::PlayerId;

verus! {

/// Represent an action a player can perform.
#[derive(Copy, Clone, Debug)]
pub enum Action {
    /// Resign
    Resign,
    /// Cancel all the moves already queued for the player
    CancelMoves,
    /// Make a move from a tile to another
    Move(Move),
}

/// The queue and latch after one action lands: a move joins the queue with
/// the endpoint's own player written in, cancelling empties the queue, and
/// resigning empties it for good.
pub open spec fn spec_action(
    queue: Seq<Move>,
    resigned: bool,
    action: Action,
    player: PlayerId,
) -> (Seq<Move>, bool) {
    match action {
        Action::Move(mv) => (queue.push(Move { player, ..mv }), resigned),
        Action::CancelMoves => (Seq::empty(), resigned),
        Action::Resign => (Seq::empty(), true),
    }
}

/// The queue and latch after a batch of polled actions is drained, in
/// order: a resignation ends the drain, and what follows it is left for the
/// transport to discard.
pub open spec fn spec_drain(
    queue: Seq<Move>,
    resigned: bool,
    actions: Seq<Action>,
    player: PlayerId,
) -> (Seq<Move>, bool)
    decreases actions.len(),
{
    if actions.len() == 0 {
        (queue, resigned)
    } else {
        match actions.first() {
            Action::Resign => (Seq::empty(), true),
            _ => {
                let next = spec_action(queue, resigned, actions.first(), player);
                spec_drain(next.0, next.1, actions.subrange(1, actions.len() as int), player)
            },
        }
    }
}

/// Draining writes the endpoint's player into every move it queues: a
/// queue speaking only for its player keeps doing so through any batch.
pub proof fn lemma_drain_keeps_owner(
    queue: Seq<Move>,
    resigned: bool,
    actions: Seq<Action>,
    player: PlayerId,
)
    requires
        forall|i: int| 0 <= i < queue.len() ==> (#[trigger] queue[i]).player == player,
    ensures
        forall|i: int|
            0 <= i < spec_drain(queue, resigned, actions, player).0.len() ==> (#[trigger] spec_drain(
                queue,
                resigned,
                actions,
                player,
            ).0[i]).player == player,
    decreases actions.len(),
{
    if actions.len() > 0 {
        match actions.first() {
            Action::Resign => {},
            Action::CancelMoves => {
                lemma_drain_keeps_owner(
                    Seq::empty(),
                    resigned,
                    actions.subrange(1, actions.len() as int),
                    player,
                );
            },
            Action::Move(mv) => {
                let pushed = queue.push(Move { player, ..mv });
                lemma_drain_keeps_owner(
                    pushed,
                    resigned,
                    actions.subrange(1, actions.len() as int),
                    player,
                );
            },
        }
    }
}

/// The runner-side half of one connection: the moves a player has queued
/// and whether they are gone for good.
#[derive(Debug)]
pub struct ConnectionProxy {
    player: PlayerId,
    pending_moves: VecDeque<Move>,
    resigned: bool,
}

impl ConnectionProxy {
    /// The player this endpoint was assigned at admission.
    pub closed spec fn spec_player(self) -> PlayerId {
        self.player
    }

    /// The moves the player has queued, oldest first.
    pub closed spec fn spec_pending(self) -> Seq<Move> {
        self.pending_moves@
    }

    /// Whether the player resigned, or was cut off.
    pub closed spec fn spec_resigned(self) -> bool {
        self.resigned
    }

    /// Every queued move speaks for this endpoint's own player: the drain
    /// writes the player in as moves arrive, so the queue never carries
    /// anyone else's name.
    pub open spec fn queue_owned(self) -> bool {
        forall|i: int|
            0 <= i < self.spec_pending().len() ==> (#[trigger] self.spec_pending()[i]).player
                == self.spec_player()
    }

    /// Return a fresh proxy for the player admitted under the given ID: no
    /// queued move, not resigned.
    pub fn new(player: PlayerId) -> (c: ConnectionProxy)
        ensures
            c.spec_player() == player,
            c.spec_pending() == Seq::<Move>::empty(),
            !c.spec_resigned(),
            c.queue_owned(),
    {
        let c = ConnectionProxy { player, pending_moves: VecDeque::new(), resigned: false };
        proof {
            assert(c.spec_pending() =~= Seq::<Move>::empty());
        }
        c
    }

    /// Feed one decoded action into the queue and latch. Return whether the
    /// drain must stop here: only a resignation ends it.
    pub fn handle_action(&mut self, action: Action) -> (stop: bool)
        ensures
            ({
                let next = spec_action(
                    old(self).spec_pending(),
                    old(self).spec_resigned(),
                    action,
                    old(self).spec_player(),
                );
                &&& final(self).spec_pending() == next.0
                &&& final(self).spec_resigned() == next.1
            }),
            final(self).spec_player() == old(self).spec_player(),
            stop == (action is Resign),
    {
        match action {
            Action::CancelMoves => {
                self.pending_moves.clear();
                proof {
                    assert(self.spec_pending() =~= Seq::<Move>::empty());
                }
                false
            },
            Action::Resign => {
                self.resign();
                true
            },
            Action::Move(mv) => {
                // The move speaks for whoever this endpoint belongs to,
                // whatever the frame claimed.
                let mv = Move { player: self.player, from: mv.from, direction: mv.direction };
                self.pending_moves.push_back(mv);
                false
            },
        }
    }

    /// Drain one batch of polled actions, in order, stopping at a
    /// resignation; a closed transport counts as one, since the player's
    /// next moves can never arrive.
    pub fn drain_actions(&mut self, actions: &Vec<Action>, transport_closed: bool)
        ensures
            final(self).spec_player() == old(self).spec_player(),
            old(self).queue_owned() ==> final(self).queue_owned(),
            ({
                let drained = spec_drain(
                    old(self).spec_pending(),
                    old(self).spec_resigned(),
                    actions@,
                    old(self).spec_player(),
                );
                if transport_closed {
                    final(self).spec_pending() == Seq::<Move>::empty() && final(self).spec_resigned()
                } else {
                    final(self).spec_pending() == drained.0 && final(self).spec_resigned()
                        == drained.1
                }
            }),
    {
        let ghost q0 = self.spec_pending();
        let ghost r0 = self.spec_resigned();
        let ghost player = self.spec_player();
        let ghost target = spec_drain(q0, r0, actions@, player);
        proof {
            if old(self).queue_owned() {
                lemma_drain_keeps_owner(q0, r0, actions@, player);
            }
        }
        proof {
            assert(actions@.subrange(0, actions@.len() as int) =~= actions@);
        }
        let mut k: usize = 0;
        let mut stopped = false;
        while k < actions.len() && !stopped
            invariant
                k <= actions@.len(),
                self.spec_player() == player,
                target == spec_drain(q0, r0, actions@, player),
                !stopped ==> spec_drain(
                    self.spec_pending(),
                    self.spec_resigned(),
                    actions@.subrange(k as int, actions@.len() as int),
                    player,
                ) == target,
                stopped ==> self.spec_resigned() && self.spec_pending() == Seq::<Move>::empty()
                    && target.0 == Seq::<Move>::empty() && target.1,
            decreases actions.len() - k,
        {
            let ghost rest = actions@.subrange(k as int, actions@.len() as int);
            proof {
                assert(rest.first() == actions@[k as int]);
                assert(rest.subrange(1, rest.len() as int) =~= actions@.subrange(
                    k + 1,
                    actions@.len() as int,
                ));
            }
            let stop = self.handle_action(actions[k]);
            if stop {
                stopped = true;
            }
            k += 1;
        }
        proof {
            if !stopped {
                assert(actions@.subrange(k as int, actions@.len() as int) =~= Seq::<
                    Action,
                >::empty());
            }
        }
        if transport_closed {
            self.resign();
        }
    }

    /// Mark the player gone: their queue empties and stays out of use.
    pub fn resign(&mut self)
        ensures
            final(self).spec_player() == old(self).spec_player(),
            final(self).spec_resigned(),
            final(self).spec_pending() == Seq::<Move>::empty(),
            final(self).queue_owned(),
    {
        self.resigned = true;
        self.pending_moves.clear();
        proof {
            assert(self.spec_pending() =~= Seq::<Move>::empty());
        }
    }

    /// Take the oldest queued move, if any.
    pub fn get_move(&mut self) -> (r: Option<Move>)
        ensures
            final(self).spec_player() == old(self).spec_player(),
            final(self).spec_resigned() == old(self).spec_resigned(),
            ({
                if old(self).spec_pending().len() == 0 {
                    r is None && final(self).spec_pending() == old(self).spec_pending()
                } else {
                    r == Some(old(self).spec_pending().first()) && final(self).spec_pending()
                        == old(self).spec_pending().subrange(
                        1,
                        old(self).spec_pending().len() as int,
                    )
                }
            }),
    {
        self.pending_moves.pop_front()
    }

    /// Return whether the player is gone.
    pub fn has_resigned(&self) -> (r: bool)
        ensures
            r == self.spec_resigned(),
    {
        self.resigned
    }

    /// Return the player this endpoint speaks for.
    pub fn player(&self) -> (r: PlayerId)
        ensures
            r == self.spec_player(),
    {
        self.player
    }
}

} // verus!
