//! The simulation a server runs: the world, the registry of sessions to
//! broadcast to, the movement intents waiting for the next tick, and the
//! tick itself.

use vstd::prelude::*;
use crate::units::{ClientId, MAX_FOOD_COUNT};
use crate::world::{
    draw_newcomer, encounters, has_player, lemma_removed_absent, newcomer, refilled, settled,
    slot_of, without_player, AdmitError, Encounter, Player, World, WorldView,
};
use crate::theorems::lemma_settled_never_shrinks;

verus! {

/// A client's wish to move its player toward `(x, y)`.
#[derive(Clone, Copy, Debug, PartialEq, Eq, Structural)]
pub struct Intent {
    pub id: ClientId,
    pub x: i64,
    pub y: i64,
}

/// A registered session: its identifier and the sink its messages go to.
pub struct Entry<S> {
    pub id: ClientId,
    pub sink: S,
}

/// Some entry of `es` carries `id`.
pub open spec fn has_session<S>(es: Seq<Entry<S>>, id: ClientId) -> bool {
    exists|i: int| 0 <= i < es.len() && (#[trigger] es[i]).id == id
}

/// The position in `es` of an entry that carries `id`.
pub open spec fn session_slot<S>(es: Seq<Entry<S>>, id: ClientId) -> int {
    choose|i: int| 0 <= i < es.len() && (#[trigger] es[i]).id == id
}

/// No two entries of `es` carry the same identifier.
pub open spec fn distinct_sessions<S>(es: Seq<Entry<S>>) -> bool {
    forall|i: int, j: int| 0 <= i < j < es.len() ==> (#[trigger] es[i]).id != (#[trigger] es[j]).id
}

/// Some intent of `q` is for `id`.
pub open spec fn has_intent(q: Seq<Intent>, id: ClientId) -> bool {
    exists|i: int| 0 <= i < q.len() && (#[trigger] q[i]).id == id
}

/// The position in `q` of an intent for `id`.
pub open spec fn intent_slot(q: Seq<Intent>, id: ClientId) -> int {
    choose|i: int| 0 <= i < q.len() && (#[trigger] q[i]).id == id
}

/// No two intents of `q` are for the same player.
pub open spec fn distinct_intents(q: Seq<Intent>) -> bool {
    forall|i: int, j: int| 0 <= i < j < q.len() ==> (#[trigger] q[i]).id != (#[trigger] q[j]).id
}

/// `q` with `intent` taken in: in the place of an earlier intent for the
/// same player, or else at the end.
pub open spec fn enqueued(q: Seq<Intent>, intent: Intent) -> Seq<Intent> {
    if has_intent(q, intent.id) {
        q.update(intent_slot(q, intent.id), intent)
    } else {
        q.push(intent)
    }
}

/// `es` without the entry that carries `id`, the others in their order.
pub open spec fn without_session<S>(es: Seq<Entry<S>>, id: ClientId) -> Seq<Entry<S>> {
    if has_session(es, id) {
        es.remove(session_slot(es, id))
    } else {
        es
    }
}

/// The lobby at one instant, as mathematics sees it.
#[verifier::ext_equal]
pub struct LobbyView<S> {
    /// The world.
    pub world: WorldView,
    /// The registered sessions, in the order they connected.
    pub sessions: Seq<Entry<S>>,
    /// The intents waiting for the next tick, one per player at most.
    pub pending: Seq<Intent>,
}

impl<S> LobbyView<S> {
    /// The world is well formed, sessions and waiting intents are unique
    /// by identifier, and the registered sessions are exactly the
    /// sessions of the live players.
    pub open spec fn wf(self) -> bool {
        &&& self.world.wf()
        &&& distinct_sessions(self.sessions)
        &&& distinct_intents(self.pending)
        &&& forall|i: int|
            0 <= i < self.sessions.len() ==> has_player(self.world.players, (#[trigger] self.sessions[i]).id)
        &&& forall|i: int|
            0 <= i < self.world.players.len() ==> has_session(
                self.sessions,
                (#[trigger] self.world.players[i]).id,
            )
    }
}

/// The simulation: the only writer of the world.
pub struct Lobby<S> {
    world: World,
    sessions: Vec<Entry<S>>,
    pending: Vec<Intent>,
}

impl<S> View for Lobby<S> {
    type V = LobbyView<S>;

    closed spec fn view(&self) -> LobbyView<S> {
        LobbyView { world: self.world@, sessions: self.sessions@, pending: self.pending@ }
    }
}

/// Where a session is found is where its identifier is.
pub proof fn lemma_session_slot_unique<S>(es: Seq<Entry<S>>, id: ClientId, i: int)
    requires
        distinct_sessions(es),
        0 <= i < es.len(),
        es[i].id == id,
    ensures
        has_session(es, id),
        session_slot(es, id) == i,
{
    let s = session_slot(es, id);
    if s < i {
        assert(es[s].id != es[i].id);
    }
    if i < s {
        assert(es[i].id != es[s].id);
    }
}

/// Where an intent is found is where its player's identifier is.
pub proof fn lemma_intent_slot_unique(q: Seq<Intent>, id: ClientId, i: int)
    requires
        distinct_intents(q),
        0 <= i < q.len(),
        q[i].id == id,
    ensures
        has_intent(q, id),
        intent_slot(q, id) == i,
{
    let s = intent_slot(q, id);
    if s < i {
        assert(q[s].id != q[i].id);
    }
    if i < s {
        assert(q[i].id != q[s].id);
    }
}

impl<S> Lobby<S> {
    /// The invariant of the lobby; see [`LobbyView::wf`].
    pub open spec fn wf(&self) -> bool {
        self@.wf()
    }

    /// A lobby around a fresh world stocked with pellets, with nobody
    /// connected.
    pub fn new() -> (lobby: Lobby<S>)
        ensures
            lobby.wf(),
            lobby@.world.players.len() == 0,
            lobby@.world.food.len() == MAX_FOOD_COUNT,
            lobby@.sessions.len() == 0,
            lobby@.pending.len() == 0,
    {
        Lobby { world: World::new(), sessions: Vec::new(), pending: Vec::new() }
    }

    /// A lobby around `world`, with nobody connected; `None` when `world`
    /// holds players already.
    pub fn with_world(world: World) -> (r: Option<Lobby<S>>)
        requires
            world.wf(),
        ensures
            r is Some <==> world@.players.len() == 0,
            r matches Some(lobby) ==> {
                &&& lobby.wf()
                &&& lobby@.world == world@
                &&& lobby@.sessions.len() == 0
                &&& lobby@.pending.len() == 0
            },
    {
        if world.players().len() != 0 {
            return None;
        }
        Some(Lobby { world, sessions: Vec::new(), pending: Vec::new() })
    }

    /// The world.
    pub fn world(&self) -> (w: &World)
        ensures
            w@ == self@.world,
    {
        &self.world
    }

    /// The registered sessions, in the order they connected.
    pub fn sessions(&self) -> (es: &Vec<Entry<S>>)
        ensures
            es@ == self@.sessions,
    {
        &self.sessions
    }

    /// The intents waiting for the next tick.
    pub fn pending(&self) -> (q: &Vec<Intent>)
        ensures
            q@ == self@.pending,
    {
        &self.pending
    }

    /// The position of the entry that carries `id`, if there is one.
    fn find_session(&self, id: ClientId) -> (r: Option<usize>)
        ensures
            match r {
                Some(i) => i < self@.sessions.len() && self@.sessions[i as int].id == id,
                None => !has_session(self@.sessions, id),
            },
    {
        let mut i: usize = 0;
        while i < self.sessions.len()
            invariant
                i <= self.sessions.len(),
                forall|k: int| 0 <= k < i ==> (#[trigger] self.sessions@[k]).id != id,
            decreases self.sessions.len() - i,
        {
            if self.sessions[i].id == id {
                return Some(i);
            }
            i += 1;
        }
        None
    }

    /// The position of the intent for `id`, if there is one.
    fn find_intent(&self, id: ClientId) -> (r: Option<usize>)
        ensures
            match r {
                Some(i) => i < self@.pending.len() && self@.pending[i as int].id == id,
                None => !has_intent(self@.pending, id),
            },
    {
        let mut i: usize = 0;
        while i < self.pending.len()
            invariant
                i <= self.pending.len(),
                forall|k: int| 0 <= k < i ==> (#[trigger] self.pending@[k]).id != id,
            decreases self.pending.len() - i,
        {
            if self.pending[i].id == id {
                return Some(i);
            }
            i += 1;
        }
        None
    }

    /// Registers a session for `player` and puts the player into the world
    /// as it is given.
    ///
    /// Fails, and changes nothing, when the identifier is taken or the
    /// player is not valid; `sink` is dropped then.
    pub fn connect_as(&mut self, player: Player, sink: S) -> (r: Result<(), AdmitError>)
        requires
            old(self).wf(),
        ensures
            final(self).wf(),
            final(self)@.pending == old(self)@.pending,
            final(self)@.world.food == old(self)@.world.food,
            match r {
                Ok(_) => {
                    &&& !has_player(old(self)@.world.players, player.id)
                    &&& player.valid()
                    &&& final(self)@.world.players == old(self)@.world.players.push(player)
                    &&& final(self)@.sessions == old(self)@.sessions.push(Entry { id: player.id, sink })
                },
                Err(AdmitError::Duplicate) => {
                    &&& has_player(old(self)@.world.players, player.id)
                    &&& final(self)@ == old(self)@
                },
                Err(AdmitError::OutOfRange) => {
                    &&& !has_player(old(self)@.world.players, player.id)
                    &&& !player.valid()
                    &&& final(self)@ == old(self)@
                },
            },
    {
        let r = self.world.insert_player(player);
        if r.is_ok() {
            proof {
                if has_session(self@.sessions, player.id) {
                    let k = session_slot(self@.sessions, player.id);
                    assert(has_player(old(self)@.world.players, self@.sessions[k].id));
                }
            }
            self.sessions.push(Entry { id: player.id, sink });
            proof {
                let ps = self@.world.players;
                let es = self@.sessions;
                assert forall|i: int| 0 <= i < es.len() implies
                    has_player(ps, (#[trigger] es[i]).id) by {
                    if i < es.len() - 1 {
                        let k = slot_of(old(self)@.world.players, es[i].id);
                        assert(ps[k].id == es[i].id);
                    } else {
                        assert(ps[ps.len() - 1].id == player.id);
                    }
                }
                assert forall|i: int| 0 <= i < ps.len() implies
                    has_session(es, (#[trigger] ps[i]).id) by {
                    if i < ps.len() - 1 {
                        assert(has_session(old(self)@.sessions, old(self)@.world.players[i].id));
                        let k = session_slot(old(self)@.sessions, ps[i].id);
                        assert(es[k].id == ps[i].id);
                    } else {
                        assert(es[es.len() - 1].id == player.id);
                    }
                }
                assert forall|i: int, j: int| 0 <= i < j < es.len() implies
                    (#[trigger] es[i]).id != (#[trigger] es[j]).id by {
                    if j < es.len() - 1 {
                        assert(old(self)@.sessions[i].id != old(self)@.sessions[j].id);
                    } else {
                        assert(old(self)@.sessions[i].id != player.id);
                    }
                }
            }
        }
        r
    }

    /// Registers a session under `id` and admits its player, as
    /// [`World::admit_player`] says.
    ///
    /// Fails, and changes nothing, when `id` is taken; `sink` is dropped
    /// then.
    pub fn connect(&mut self, id: ClientId, sink: S) -> (r: Result<(), AdmitError>)
        requires
            old(self).wf(),
        ensures
            final(self).wf(),
            final(self)@.pending == old(self)@.pending,
            final(self)@.world.food == old(self)@.world.food,
            match r {
                Ok(_) => {
                    &&& !has_player(old(self)@.world.players, id)
                    &&& final(self)@.world.players.len() == old(self)@.world.players.len() + 1
                    &&& final(self)@.world.players.drop_last() == old(self)@.world.players
                    &&& newcomer(final(self)@.world.players.last(), id)
                    &&& final(self)@.sessions == old(self)@.sessions.push(Entry { id, sink })
                },
                Err(e) => {
                    &&& e == AdmitError::Duplicate
                    &&& has_player(old(self)@.world.players, id)
                    &&& final(self)@ == old(self)@
                },
            },
    {
        let player = draw_newcomer(id);
        let r = self.connect_as(player, sink);
        proof {
            if r.is_ok() {
                assert(self@.world.players.drop_last() == old(self)@.world.players);
            }
        }
        r
    }

    /// Removes the session under `id` and its player, and hands the
    /// session's sink back. Does nothing when there is no such session.
    pub fn disconnect(&mut self, id: ClientId) -> (r: Option<S>)
        requires
            old(self).wf(),
        ensures
            final(self).wf(),
            final(self)@.pending == old(self)@.pending,
            final(self)@.world.food == old(self)@.world.food,
            final(self)@.world.players == without_player(old(self)@.world.players, id),
            final(self)@.sessions == without_session(old(self)@.sessions, id),
            r is Some <==> has_session(old(self)@.sessions, id),
            r matches Some(sink) ==> sink == old(self)@.sessions[session_slot(
                old(self)@.sessions,
                id,
            )].sink,
    {
        match self.find_session(id) {
            Some(i) => {
                proof {
                    lemma_session_slot_unique(self@.sessions, id, i as int);
                    assert(has_player(self@.world.players, self@.sessions[i as int].id));
                    let k = slot_of(self@.world.players, id);
                    lemma_removed_absent(self@.world.players, k);
                }
                let entry = self.sessions.remove(i);
                self.world.remove_player(id);
                proof {
                    let ps0 = old(self)@.world.players;
                    let es0 = old(self)@.sessions;
                    let ps = self@.world.players;
                    let es = self@.sessions;
                    let k = slot_of(ps0, id);
                    assert forall|a: int| 0 <= a < es.len() implies (#[trigger] es[a]) == es0[if a
                        < i { a } else { a + 1 }] by {}
                    assert forall|a: int, b: int| 0 <= a < b < es.len() implies
                        (#[trigger] es[a]).id != (#[trigger] es[b]).id by {
                        assert(es0[if a < i { a } else { a + 1 }].id != es0[if b < i { b } else { b + 1 }].id);
                    }
                    assert forall|a: int| 0 <= a < es.len() implies
                        has_player(ps, (#[trigger] es[a]).id) by {
                        let a0 = if a < i { a } else { a + 1 };
                        assert(has_player(ps0, es0[a0].id));
                        let m = slot_of(ps0, es0[a0].id);
                        if a0 < i {
                            assert(es0[a0].id != es0[i as int].id);
                        } else {
                            assert(es0[i as int].id != es0[a0].id);
                        }
                        let m1 = if m < k { m } else { m - 1 };
                        assert(ps[m1] == ps0[m]);
                    }
                    assert forall|a: int| 0 <= a < ps.len() implies
                        has_session(es, (#[trigger] ps[a]).id) by {
                        let a0 = if a < k { a } else { a + 1 };
                        assert(ps[a] == ps0[a0]);
                        assert(has_session(es0, ps0[a0].id));
                        let m = session_slot(es0, ps0[a0].id);
                        if a0 < k {
                            assert(ps0[a0].id != ps0[k].id);
                        } else {
                            assert(ps0[k].id != ps0[a0].id);
                        }
                        let m1 = if m < i { m } else { m - 1 };
                        assert(es[m1] == es0[m]);
                    }
                }
                Some(entry.sink)
            },
            None => {
                proof {
                    if has_player(self@.world.players, id) {
                        let k = slot_of(self@.world.players, id);
                        assert(has_session(self@.sessions, self@.world.players[k].id));
                    }
                }
                self.world.remove_player(id);
                None
            },
        }
    }

    /// Takes a movement intent in for the next tick, in the place of an
    /// earlier one for the same player; tells whether it did. An intent
    /// for a player that is not in the world is dropped.
    pub fn enqueue(&mut self, intent: Intent) -> (taken: bool)
        requires
            old(self).wf(),
        ensures
            final(self).wf(),
            final(self)@.world == old(self)@.world,
            final(self)@.sessions == old(self)@.sessions,
            taken == has_player(old(self)@.world.players, intent.id),
            taken ==> final(self)@.pending == enqueued(old(self)@.pending, intent),
            !taken ==> final(self)@.pending == old(self)@.pending,
    {
        if self.world.player(intent.id).is_none() {
            return false;
        }
        match self.find_intent(intent.id) {
            Some(i) => {
                proof {
                    lemma_intent_slot_unique(self@.pending, intent.id, i as int);
                }
                self.pending.set(i, intent);
                proof {
                    let q = self@.pending;
                    assert forall|a: int, b: int| 0 <= a < b < q.len() implies
                        (#[trigger] q[a]).id != (#[trigger] q[b]).id by {
                        assert(old(self)@.pending[a].id != old(self)@.pending[b].id);
                    }
                }
            },
            None => {
                self.pending.push(intent);
                proof {
                    let q = self@.pending;
                    assert forall|a: int, b: int| 0 <= a < b < q.len() implies
                        (#[trigger] q[a]).id != (#[trigger] q[b]).id by {
                        if b < q.len() - 1 {
                            assert(old(self)@.pending[a].id != old(self)@.pending[b].id);
                        } else {
                            assert(old(self)@.pending[a].id != intent.id);
                        }
                    }
                }
            },
        }
        true
    }
}

/// The test an entry passes when its player is among `ps`.
pub open spec fn alive_in<S>(ps: Seq<Player>) -> spec_fn(Entry<S>) -> bool {
    |e: Entry<S>| has_player(ps, e.id)
}

/// The test an entry passes when its player is not among `ps`.
pub open spec fn gone_from<S>(ps: Seq<Player>) -> spec_fn(Entry<S>) -> bool {
    |e: Entry<S>| !has_player(ps, e.id)
}

/// `after` is what applying `intent` makes of `before`: the player has
/// moved and eaten, as [`WorldView::after_move`] says, and the pellets are
/// topped up again. Without the player nothing has changed.
pub open spec fn moved_by(before: WorldView, intent: Intent, after: WorldView) -> bool {
    let moved = before.after_move(intent.id, intent.x as int, intent.y as int);
    &&& after.wf()
    &&& after.players == moved.players
    &&& if has_player(before.players, intent.id) {
        refilled(moved.food, after.food)
    } else {
        after.food == before.food
    }
}

/// `after` is what applying `intents`, one after the other, makes of
/// `before`.
pub open spec fn moved_through(before: WorldView, intents: Seq<Intent>, after: WorldView) -> bool
    decreases intents.len(),
{
    if intents.len() == 0 {
        after == before
    } else {
        exists|mid: WorldView|
            moved_through(before, intents.drop_last(), mid) && #[trigger] moved_by(
                mid,
                intents.last(),
                after,
            )
    }
}

/// `after` is what one tick makes of `before`: the waiting intents are
/// applied in their order, then one combat pass finds `found` and settles
/// it; the sessions whose players are gone are `evicted` and the others
/// stay registered; a snapshot is due when any session is left.
pub open spec fn ticked<S>(
    before: LobbyView<S>,
    after: LobbyView<S>,
    found: Seq<Encounter>,
    evicted: Seq<Entry<S>>,
    broadcast: bool,
) -> bool {
    exists|mid: WorldView|
        {
            &&& #[trigger] moved_through(before.world, before.pending, mid)
            &&& found == encounters(mid.players)
            &&& after.world.players == settled(mid.players, found)
            &&& after.world.food == mid.food
            &&& after.sessions == before.sessions.filter(alive_in(after.world.players))
            &&& evicted == before.sessions.filter(gone_from(after.world.players))
            &&& after.pending.len() == 0
            &&& broadcast == (after.sessions.len() > 0)
        }
}

/// What a tick leaves for the transport to do.
pub struct TickReport<S> {
    /// The encounters of the combat pass, in the order they were settled.
    pub encounters: Vec<Encounter>,
    /// The sessions whose players were eaten: each is owed the terminal
    /// notice, and is no longer registered.
    pub evicted: Vec<Entry<S>>,
    /// Whether a snapshot is to be serialised and sent to the registered
    /// sessions.
    pub broadcast: bool,
}

/// Moving a player changes neither how many players there are nor the
/// identifier at any position.
pub proof fn lemma_move_keeps_ids(w: WorldView, id: ClientId, tx: int, ty: int)
    requires
        w.wf(),
    ensures
        w.after_move(id, tx, ty).players.len() == w.players.len(),
        forall|i: int|
            0 <= i < w.players.len() ==> (#[trigger] w.after_move(id, tx, ty).players[i]).id
                == w.players[i].id,
        forall|other: ClientId|
            has_player(w.after_move(id, tx, ty).players, other) <==> has_player(w.players, other),
{
    let ps = w.players;
    let qs = w.after_move(id, tx, ty).players;
    assert forall|i: int| 0 <= i < ps.len() implies (#[trigger] qs[i]).id == ps[i].id by {}
    assert forall|other: ClientId| has_player(qs, other) <==> has_player(ps, other) by {
        if has_player(qs, other) {
            let k = slot_of(qs, other);
            assert(ps[k].id == other);
        }
        if has_player(ps, other) {
            let k = slot_of(ps, other);
            assert(qs[k].id == other);
        }
    }
}

/// Applying intents to a stocked world leaves a stocked world.
pub proof fn lemma_moves_keep_stock(before: WorldView, intents: Seq<Intent>, after: WorldView)
    requires
        before.wf(),
        moved_through(before, intents, after),
    ensures
        after.wf(),
        before.food.len() == MAX_FOOD_COUNT ==> after.food.len()
            == MAX_FOOD_COUNT,
        forall|id: ClientId| has_player(after.players, id) <==> has_player(before.players, id),
    decreases intents.len(),
{
    if intents.len() > 0 {
        let mid = choose|mid: WorldView|
            moved_through(before, intents.drop_last(), mid) && #[trigger] moved_by(
                mid,
                intents.last(),
                after,
            );
        lemma_moves_keep_stock(before, intents.drop_last(), mid);
        let last = intents.last();
        lemma_move_keeps_ids(mid, last.id, last.x as int, last.y as int);
    }
}

/// What a filter leaves of entries with distinct identifiers: distinct
/// entries that were there and pass the test, and every entry that passes
/// the test.
pub proof fn lemma_filter_sessions<S>(es: Seq<Entry<S>>, keep: spec_fn(Entry<S>) -> bool)
    requires
        distinct_sessions(es),
    ensures
        distinct_sessions(es.filter(keep)),
        forall|i: int| 0 <= i < es.filter(keep).len() ==> keep(#[trigger] es.filter(keep)[i]),
        forall|i: int|
            0 <= i < es.filter(keep).len() ==> has_session(es, (#[trigger] es.filter(keep)[i]).id),
        forall|j: int|
            0 <= j < es.len() && keep(es[j]) ==> has_session(es.filter(keep), (#[trigger] es[j]).id),
    decreases es.len(),
{
    reveal(Seq::filter);
    if es.len() > 0 {
        let rest = es.drop_last();
        let last = es.last();
        lemma_filter_sessions(rest, keep);
        let out = rest.filter(keep);
        let all = es.filter(keep);
        assert forall|i: int| 0 <= i < out.len() implies has_session(es, (#[trigger] out[i]).id)
            && out[i].id != last.id by {
            assert(has_session(rest, out[i].id));
            let k = session_slot(rest, out[i].id);
            assert(es[k].id == out[i].id);
            assert(es[k].id != es[es.len() - 1].id);
        }
        if keep(last) {
            assert(all == out.push(last));
            assert(es[es.len() - 1].id == last.id);
            assert forall|i: int| 0 <= i < all.len() implies has_session(es, (#[trigger] all[i]).id)
                && keep(all[i]) by {
                if i < out.len() {
                    assert(all[i] == out[i]);
                }
            }
            assert forall|j: int| 0 <= j < es.len() && keep(es[j]) implies has_session(
                all,
                (#[trigger] es[j]).id,
            ) by {
                if j < rest.len() {
                    assert(rest[j] == es[j]);
                    assert(has_session(out, rest[j].id));
                    let k = session_slot(out, rest[j].id);
                    assert(all[k].id == es[j].id);
                } else {
                    assert(all[all.len() - 1].id == es[j].id);
                }
            }
        } else {
            assert(all == out);
            assert forall|j: int| 0 <= j < es.len() && keep(es[j]) implies has_session(
                all,
                (#[trigger] es[j]).id,
            ) by {
                assert(rest[j] == es[j]);
            }
        }
    }
}

impl<S> Lobby<S> {
    /// Applies the waiting intents, in their order, as
    /// [`World::apply_movement_intent`] says, and forgets them.
    pub fn apply_pending(&mut self)
        requires
            old(self).wf(),
        ensures
            final(self).wf(),
            final(self)@.sessions == old(self)@.sessions,
            final(self)@.pending.len() == 0,
            moved_through(old(self)@.world, old(self)@.pending, final(self)@.world),
    {
        let ghost start = self@.world;
        let ghost q = self@.pending;
        let mut k: usize = 0;
        assert(q.take(0).len() == 0);
        while k < self.pending.len()
            invariant
                self.wf(),
                self@.sessions == old(self)@.sessions,
                self@.pending == q,
                k <= q.len(),
                moved_through(start, q.take(k as int), self@.world),
            decreases self.pending.len() - k,
        {
            let intent: Intent = self.pending[k];
            let ghost prior = self@.world;
            self.world.apply_movement_intent(intent.id, intent.x, intent.y);
            proof {
                let now = self@.world;
                lemma_move_keeps_ids(prior, intent.id, intent.x as int, intent.y as int);
                let step = q.take(k as int + 1);
                assert(step.drop_last() == q.take(k as int));
                assert(step.last() == intent);
                assert(moved_by(prior, intent, now));
                assert(moved_through(start, step.drop_last(), prior) && moved_by(
                    prior,
                    step.last(),
                    now,
                ));
                assert forall|i: int| 0 <= i < self@.sessions.len() implies has_player(
                    now.players,
                    (#[trigger] self@.sessions[i]).id,
                ) by {
                    assert(has_player(prior.players, self@.sessions[i].id));
                }
                assert forall|i: int| 0 <= i < now.players.len() implies has_session(
                    self@.sessions,
                    (#[trigger] now.players[i]).id,
                ) by {
                    assert(has_session(self@.sessions, prior.players[i].id));
                }
            }
            k += 1;
        }
        assert(q.take(k as int) == q);
        self.pending.clear();
    }

    /// Unregisters the sessions whose players are gone and returns them.
    fn evict(&mut self) -> (out: Vec<Entry<S>>)
        requires
            old(self)@.world.wf(),
            distinct_sessions(old(self)@.sessions),
            distinct_intents(old(self)@.pending),
            forall|i: int|
                0 <= i < old(self)@.world.players.len() ==> has_session(
                    old(self)@.sessions,
                    (#[trigger] old(self)@.world.players[i]).id,
                ),
        ensures
            final(self).wf(),
            final(self)@.world == old(self)@.world,
            final(self)@.pending == old(self)@.pending,
            final(self)@.sessions == old(self)@.sessions.filter(alive_in(old(self)@.world.players)),
            out@ == old(self)@.sessions.filter(gone_from(old(self)@.world.players)),
    {
        let ghost all = self@.sessions;
        let ghost ps = self@.world.players;
        let mut out: Vec<Entry<S>> = Vec::new();
        let mut i: usize = 0;
        proof {
            reveal(Seq::filter);
            assert(all.take(0).filter(alive_in(ps)).len() == 0);
            assert(all.take(0).filter(gone_from(ps)).len() == 0);
            assert(self@.sessions == all.take(0).filter(alive_in(ps)) + all.skip(0));
        }
        while i < self.sessions.len()
            invariant
                self@.world == old(self)@.world,
                self@.pending == old(self)@.pending,
                self@.world.wf(),
                ps == self@.world.players,
                i <= self@.sessions.len(),
                i + out@.len() <= all.len(),
                i == all.take(i + out@.len()).filter(alive_in(ps)).len(),
                self@.sessions == all.take(i + out@.len()).filter(alive_in(ps)) + all.skip(
                    i + out@.len(),
                ),
                out@ == all.take(i + out@.len()).filter(gone_from(ps)),
            decreases self.sessions.len() - i,
        {
            let ghost k = i + out@.len();
            let ghost head = all.take(k);
            proof {
                assert(self@.sessions[i as int] == all.skip(k)[0]);
                assert(k < all.len());
                head.lemma_filter_push(all[k], alive_in(ps));
                head.lemma_filter_push(all[k], gone_from(ps));
                assert(head.push(all[k]) == all.take(k + 1));
                assert(all.skip(k).drop_first() == all.skip(k + 1));
            }
            if self.world.player(self.sessions[i].id).is_some() {
                proof {
                    assert(self@.sessions == all.take(k + 1).filter(alive_in(ps)) + all.skip(k + 1));
                }
                i += 1;
            } else {
                let entry = self.sessions.remove(i);
                out.push(entry);
                proof {
                    assert(self@.sessions == all.take(k + 1).filter(alive_in(ps)) + all.skip(k + 1));
                }
            }
        }
        proof {
            let k = i + out@.len();
            assert(all.skip(k).len() == 0);
            assert(all.take(k) == all);
            lemma_filter_sessions(all, alive_in(ps));
            let es = self@.sessions;
            assert forall|a: int| 0 <= a < es.len() implies
                has_player(ps, (#[trigger] es[a]).id) by {
                assert(alive_in::<S>(ps)(es[a]));
            }
            assert forall|a: int| 0 <= a < ps.len() implies
                has_session(es, (#[trigger] ps[a]).id) by {
                let m = session_slot(all, ps[a].id);
                assert(has_player(ps, all[m].id));
                assert(alive_in::<S>(ps)(all[m]));
            }
        }
        out
    }

    /// One tick of the simulation: applies the waiting intents, runs one
    /// combat pass, and unregisters the sessions of the players that were
    /// eaten. The report says what is left for the transport to do; see
    /// [`ticked`].
    pub fn tick(&mut self) -> (report: TickReport<S>)
        requires
            old(self).wf(),
        ensures
            final(self).wf(),
            ticked(
                old(self)@,
                final(self)@,
                report.encounters@,
                report.evicted@,
                report.broadcast,
            ),
    {
        self.apply_pending();
        let ghost mid = self@.world;
        let found = self.world.resolve_combat();
        proof {
            let ps = self@.world.players;
            assert forall|i: int| 0 <= i < ps.len() implies has_session(
                self@.sessions,
                (#[trigger] ps[i]).id,
            ) by {
                lemma_settled_never_shrinks(mid.players, found@, ps[i].id);
                let k = slot_of(mid.players, ps[i].id);
                assert(has_session(self@.sessions, mid.players[k].id));
            }
        }
        let evicted = self.evict();
        let broadcast: bool = self.sessions.len() > 0;
        proof {
            assert(moved_through(old(self)@.world, old(self)@.pending, mid));
        }
        TickReport { encounters: found, evicted, broadcast }
    }
}

/// A tick of a stocked world leaves it stocked, keeps no intent waiting,
/// leaves only players that were there, none smaller than it was, and
/// evicts exactly the sessions it no longer keeps.
pub proof fn lemma_tick_keeps_stock<S>(
    before: LobbyView<S>,
    after: LobbyView<S>,
    found: Seq<Encounter>,
    evicted: Seq<Entry<S>>,
    broadcast: bool,
)
    requires
        before.wf(),
        ticked(before, after, found, evicted, broadcast),
    ensures
        before.world.food.len() == MAX_FOOD_COUNT ==> after.world.food.len()
            == MAX_FOOD_COUNT,
        forall|id: ClientId|
            has_player(after.world.players, id) ==> has_player(before.world.players, id),
        after.sessions.len() + evicted.len() == before.sessions.len(),
{
    let mid = choose|mid: WorldView|
        {
            &&& #[trigger] moved_through(before.world, before.pending, mid)
            &&& found == encounters(mid.players)
            &&& after.world.players == settled(mid.players, found)
            &&& after.world.food == mid.food
            &&& after.sessions == before.sessions.filter(alive_in(after.world.players))
            &&& evicted == before.sessions.filter(gone_from(after.world.players))
            &&& after.pending.len() == 0
            &&& broadcast == (after.sessions.len() > 0)
        };
    lemma_moves_keep_stock(before.world, before.pending, mid);
    assert forall|id: ClientId| has_player(after.world.players, id) implies has_player(
        before.world.players,
        id,
    ) by {
        lemma_settled_never_shrinks(mid.players, found, id);
    }
    lemma_filter_split(before.sessions, after.world.players);
}

/// Every session is either kept or evicted.
proof fn lemma_filter_split<S>(es: Seq<Entry<S>>, ps: Seq<Player>)
    ensures
        es.filter(alive_in(ps)).len() + es.filter(gone_from(ps)).len() == es.len(),
    decreases es.len(),
{
    reveal(Seq::filter);
    if es.len() > 0 {
        lemma_filter_split(es.drop_last(), ps);
    }
}

} // verus!
