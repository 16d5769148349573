//! The world model: players, pellets and the rules that change them.

use vstd::prelude::*;
use crate::units::{
    ClientId, COLOR_SPAN, FOOD_VALUE, LIMIT, MAX_FOOD_COUNT, PLAYER_START_SIZE, SPAWN_MARGIN,
    WORLD_HEIGHT, WORLD_WIDTH,
};
use crate::geometry::{
    advance, advanced, confine, confined, dist_sq, distance_squared, lemma_square_monotone,
};
use crate::chance::{fresh_id, random_below};

verus! {

/// A display colour.
#[derive(Clone, Copy, Debug, PartialEq, Eq, Structural)]
pub struct Color {
    pub r: u8,
    pub g: u8,
    pub b: u8,
}

/// A player: a disc of radius `size` centred on `(x, y)`.
#[derive(Clone, Copy, Debug, PartialEq, Eq, Structural)]
pub struct Player {
    pub id: ClientId,
    pub x: i64,
    pub y: i64,
    pub size: i64,
    pub color: Color,
}

/// A food pellet.
#[derive(Clone, Copy, Debug, PartialEq, Eq, Structural)]
pub struct Food {
    pub id: u128,
    pub x: i64,
    pub y: i64,
    pub color: Color,
}

/// Why a player was not admitted.
#[derive(Clone, Copy, Debug, PartialEq, Eq, Structural)]
pub enum AdmitError {
    /// A player with this identifier is already in the world.
    Duplicate,
    /// The player's size or position is outside what the world can hold.
    OutOfRange,
}

impl Color {
    /// Every component is below [`COLOR_SPAN`], as of a colour drawn at
    /// random.
    pub open spec fn in_palette(self) -> bool {
        self.r < COLOR_SPAN && self.g < COLOR_SPAN && self.b < COLOR_SPAN
    }
}

impl Player {
    /// The size is positive and size and coordinates are within the limit.
    pub open spec fn valid(self) -> bool {
        &&& 0 < self.size <= LIMIT
        &&& -LIMIT <= self.x <= LIMIT
        &&& -LIMIT <= self.y <= LIMIT
    }

    /// Whether [`Player::valid`] holds.
    pub fn is_valid(&self) -> (b: bool)
        ensures
            b == self.valid(),
    {
        0 < self.size && self.size <= LIMIT && -LIMIT <= self.x && self.x <= LIMIT && -LIMIT
            <= self.y && self.y <= LIMIT
    }
}

impl Food {
    /// The pellet lies in `[0, WORLD_WIDTH) x [0, WORLD_HEIGHT)`.
    pub open spec fn valid(self) -> bool {
        &&& 0 <= self.x < WORLD_WIDTH
        &&& 0 <= self.y < WORLD_HEIGHT
    }

    /// Whether [`Food::valid`] holds.
    pub fn is_valid(&self) -> (b: bool)
        ensures
            b == self.valid(),
    {
        0 <= self.x && self.x < WORLD_WIDTH && 0 <= self.y && self.y < WORLD_HEIGHT
    }
}

/// Some player of `ps` carries `id`.
pub open spec fn has_player(ps: Seq<Player>, id: ClientId) -> bool {
    exists|i: int| 0 <= i < ps.len() && (#[trigger] ps[i]).id == id
}

/// The position in `ps` of a player that carries `id`.
pub open spec fn slot_of(ps: Seq<Player>, id: ClientId) -> int {
    choose|i: int| 0 <= i < ps.len() && (#[trigger] ps[i]).id == id
}

/// No two players of `ps` carry the same identifier.
pub open spec fn distinct_players(ps: Seq<Player>) -> bool {
    forall|i: int, j: int| 0 <= i < j < ps.len() ==> (#[trigger] ps[i]).id != (#[trigger] ps[j]).id
}

/// `ps` without the player that carries `id`, the others in their order.
pub open spec fn without_player(ps: Seq<Player>, id: ClientId) -> Seq<Player> {
    if has_player(ps, id) {
        ps.remove(slot_of(ps, id))
    } else {
        ps
    }
}

/// Some pellet of `food` carries `id`.
pub open spec fn has_food(food: Seq<Food>, id: u128) -> bool {
    exists|i: int| 0 <= i < food.len() && (#[trigger] food[i]).id == id
}

/// No two pellets of `food` carry the same identifier.
pub open spec fn distinct_food(food: Seq<Food>) -> bool {
    forall|i: int, j: int|
        0 <= i < j < food.len() ==> (#[trigger] food[i]).id != (#[trigger] food[j]).id
}

/// Where a player is found is where its identifier is.
pub proof fn lemma_slot_unique(ps: Seq<Player>, id: ClientId, i: int)
    requires
        distinct_players(ps),
        0 <= i < ps.len(),
        ps[i].id == id,
    ensures
        has_player(ps, id),
        slot_of(ps, id) == i,
{
    let s = slot_of(ps, id);
    if s < i {
        assert(ps[s].id != ps[i].id);
    }
    if i < s {
        assert(ps[i].id != ps[s].id);
    }
}

/// The world at one instant, as mathematics sees it.
#[verifier::ext_equal]
pub struct WorldView {
    /// The live players, in the order they were admitted.
    pub players: Seq<Player>,
    /// The live pellets, in the order they were spawned.
    pub food: Seq<Food>,
}

impl WorldView {
    /// Identifiers are unique, every entity is valid, and there are never
    /// more pellets than the target count.
    pub open spec fn wf(self) -> bool {
        &&& distinct_players(self.players)
        &&& forall|i: int| 0 <= i < self.players.len() ==> (#[trigger] self.players[i]).valid()
        &&& distinct_food(self.food)
        &&& forall|i: int| 0 <= i < self.food.len() ==> (#[trigger] self.food[i]).valid()
        &&& self.food.len() <= MAX_FOOD_COUNT
    }
}

/// The shared world: every live player and pellet.
pub struct World {
    players: Vec<Player>,
    food: Vec<Food>,
}

impl View for World {
    type V = WorldView;

    closed spec fn view(&self) -> WorldView {
        WorldView { players: self.players@, food: self.food@ }
    }
}

impl World {
    /// The invariant of the world; see [`WorldView::wf`].
    pub open spec fn wf(&self) -> bool {
        self@.wf()
    }

    /// A world without players and without pellets.
    pub fn empty() -> (w: World)
        ensures
            w.wf(),
            w@.players.len() == 0,
            w@.food.len() == 0,
    {
        World { players: Vec::new(), food: Vec::new() }
    }

    /// The live players, in the order they were admitted.
    pub fn players(&self) -> (ps: &Vec<Player>)
        ensures
            ps@ == self@.players,
    {
        &self.players
    }

    /// The live pellets, in the order they were spawned.
    pub fn food(&self) -> (fs: &Vec<Food>)
        ensures
            fs@ == self@.food,
    {
        &self.food
    }

    /// The position of the player that carries `id`, if there is one.
    fn find_player(&self, id: ClientId) -> (r: Option<usize>)
        ensures
            match r {
                Some(i) => i < self@.players.len() && self@.players[i as int].id == id,
                None => !has_player(self@.players, id),
            },
    {
        let mut i: usize = 0;
        while i < self.players.len()
            invariant
                i <= self.players.len(),
                forall|k: int| 0 <= k < i ==> (#[trigger] self.players@[k]).id != id,
            decreases self.players.len() - i,
        {
            if self.players[i].id == id {
                return Some(i);
            }
            i += 1;
        }
        None
    }

    /// Whether a pellet carries `id`.
    fn holds_food(&self, id: u128) -> (b: bool)
        ensures
            b == has_food(self@.food, id),
    {
        let mut i: usize = 0;
        while i < self.food.len()
            invariant
                i <= self.food.len(),
                forall|k: int| 0 <= k < i ==> (#[trigger] self.food@[k]).id != id,
            decreases self.food.len() - i,
        {
            if self.food[i].id == id {
                return true;
            }
            i += 1;
        }
        false
    }

    /// The player that carries `id`, if it is in the world.
    pub fn player(&self, id: ClientId) -> (r: Option<Player>)
        requires
            self.wf(),
        ensures
            r is Some <==> has_player(self@.players, id),
            r matches Some(p) ==> p == self@.players[slot_of(self@.players, id)] && p.id == id,
    {
        match self.find_player(id) {
            Some(i) => {
                proof {
                    lemma_slot_unique(self@.players, id, i as int);
                }
                Some(self.players[i])
            },
            None => None,
        }
    }

    /// Puts `player` into the world as it is given.
    ///
    /// Fails, and changes nothing, when a player with the same identifier
    /// is present or when `player` is not valid.
    pub fn insert_player(&mut self, player: Player) -> (r: Result<(), AdmitError>)
        requires
            old(self).wf(),
        ensures
            final(self).wf(),
            final(self)@.food == old(self)@.food,
            match r {
                Ok(_) => {
                    &&& !has_player(old(self)@.players, player.id)
                    &&& player.valid()
                    &&& final(self)@.players == old(self)@.players.push(player)
                },
                Err(AdmitError::Duplicate) => {
                    &&& has_player(old(self)@.players, player.id)
                    &&& final(self)@ == old(self)@
                },
                Err(AdmitError::OutOfRange) => {
                    &&& !has_player(old(self)@.players, player.id)
                    &&& !player.valid()
                    &&& final(self)@ == old(self)@
                },
            },
    {
        if self.find_player(player.id).is_some() {
            return Err(AdmitError::Duplicate);
        }
        if !player.is_valid() {
            return Err(AdmitError::OutOfRange);
        }
        self.players.push(player);
        Ok(())
    }

    /// Removes the player that carries `id`; does nothing when there is none.
    pub fn remove_player(&mut self, id: ClientId)
        requires
            old(self).wf(),
        ensures
            final(self).wf(),
            final(self)@.food == old(self)@.food,
            final(self)@.players == without_player(old(self)@.players, id),
            !has_player(final(self)@.players, id),
    {
        match self.find_player(id) {
            Some(i) => {
                proof {
                    lemma_slot_unique(self@.players, id, i as int);
                }
                self.players.remove(i);
                proof {
                    lemma_removed_absent(old(self)@.players, i as int);
                }
            },
            None => {},
        }
    }

    /// Puts `food` into the world as it is given, when there is room for
    /// it, it is valid and no pellet carries its identifier; tells whether
    /// it did.
    pub fn place_food(&mut self, food: Food) -> (placed: bool)
        requires
            old(self).wf(),
        ensures
            final(self).wf(),
            final(self)@.players == old(self)@.players,
            placed <==> old(self)@.food.len() < MAX_FOOD_COUNT && food.valid() && !has_food(
                old(self)@.food,
                food.id,
            ),
            placed ==> final(self)@.food == old(self)@.food.push(food),
            !placed ==> final(self)@ == old(self)@,
    {
        if self.food.len() >= MAX_FOOD_COUNT || !food.is_valid() || self.holds_food(food.id) {
            return false;
        }
        self.food.push(food);
        true
    }
}

/// Removing one of distinct players leaves distinct players, none of which
/// carries the identifier of the one removed.
pub proof fn lemma_removed_absent(ps: Seq<Player>, i: int)
    requires
        distinct_players(ps),
        0 <= i < ps.len(),
    ensures
        distinct_players(ps.remove(i)),
        !has_player(ps.remove(i), ps[i].id),
        forall|k: int| 0 <= k < ps.remove(i).len() ==> #[trigger] ps.remove(i)[k] == ps[if k < i { k } else { k + 1 }],
{
    let rest = ps.remove(i);
    assert forall|k: int| 0 <= k < rest.len() implies
        #[trigger] rest[k] == ps[if k < i { k } else { k + 1 }] by {}
    assert forall|a: int, b: int| 0 <= a < b < rest.len() implies
        (#[trigger] rest[a]).id != (#[trigger] rest[b]).id by {
        let a0 = if a < i { a } else { a + 1 };
        let b0 = if b < i { b } else { b + 1 };
        assert(ps[a0].id != ps[b0].id);
    }
    if has_player(rest, ps[i].id) {
        let k = slot_of(rest, ps[i].id);
        let k0 = if k < i { k } else { k + 1 };
        if k0 < i {
            assert(ps[k0].id != ps[i].id);
        } else {
            assert(ps[i].id != ps[k0].id);
        }
    }
}

/// The `k`-th identifier tried after `base`: `base + k`, starting again at
/// zero past the largest.
pub open spec fn probe(base: u128, k: int) -> u128 {
    if base + k <= u128::MAX {
        (base + k) as u128
    } else {
        (base + k - 0x1_0000_0000_0000_0000_0000_0000_0000_0000) as u128
    }
}

/// More consecutive identifiers than there are pellets cannot all be taken.
pub proof fn lemma_probe_finds_room(food: Seq<Food>, base: u128)
    requires
        food.len() < 0x1_0000_0000_0000_0000,
    ensures
        exists|k: int| 0 <= k <= food.len() && !has_food(food, #[trigger] probe(base, k)),
{
    if forall|k: int| 0 <= k <= food.len() ==> has_food(food, #[trigger] probe(base, k)) {
        let ids = food.map_values(|f: Food| f.id);
        let tried = Seq::new(food.len() + 1, |k: int| probe(base, k));
        assert(tried.no_duplicates());
        assert forall|id: u128| tried.to_set().contains(id) implies ids.to_set().contains(id) by {
            let k = choose|k: int| 0 <= k < tried.len() && tried[k] == id;
            assert(has_food(food, probe(base, k)));
            let i = choose|i: int| 0 <= i < food.len() && (#[trigger] food[i]).id == id;
            assert(ids[i] == id);
        }
        tried.unique_seq_to_set();
        ids.lemma_cardinality_of_set();
        vstd::seq_lib::seq_to_set_is_finite(ids);
        vstd::set_lib::lemma_len_subset(tried.to_set(), ids.to_set());
    }
}

/// `p` is as a player is admitted: of the starting size, away from every
/// edge by the margin, in a colour of the palette.
pub open spec fn newcomer(p: Player, id: ClientId) -> bool {
    &&& p.id == id
    &&& p.size == PLAYER_START_SIZE
    &&& SPAWN_MARGIN <= p.x < WORLD_WIDTH - SPAWN_MARGIN
    &&& SPAWN_MARGIN <= p.y < WORLD_HEIGHT - SPAWN_MARGIN
    &&& p.color.in_palette()
}

/// A newcomer is valid and lies with its whole disc inside the world.
pub proof fn lemma_newcomer_inside(p: Player, id: ClientId)
    requires
        newcomer(p, id),
    ensures
        p.valid(),
        p.size <= p.x <= WORLD_WIDTH - p.size,
        p.size <= p.y <= WORLD_HEIGHT - p.size,
{
}

/// `after` is `before` topped up to the target count: the pellets of
/// `before` first, unchanged, then fresh ones in colours of the palette.
pub open spec fn refilled(before: Seq<Food>, after: Seq<Food>) -> bool {
    &&& before.len() <= after.len() == MAX_FOOD_COUNT
    &&& after.take(before.len() as int) == before
    &&& forall|i: int| before.len() <= i < after.len() ==> (#[trigger] after[i]).color.in_palette()
}

/// A colour drawn at random.
fn random_color() -> (c: Color)
    ensures
        c.in_palette(),
{
    let r: u8 = random_below(COLOR_SPAN as i64) as u8;
    let g: u8 = random_below(COLOR_SPAN as i64) as u8;
    let b: u8 = random_below(COLOR_SPAN as i64) as u8;
    Color { r, g, b }
}

/// A player as it is admitted under `id`: of the starting size, at a random
/// place away from the edges, in a random colour.
pub fn draw_newcomer(id: ClientId) -> (p: Player)
    ensures
        newcomer(p, id),
        p.valid(),
{
    let x: i64 = SPAWN_MARGIN + random_below(WORLD_WIDTH - 2 * SPAWN_MARGIN);
    let y: i64 = SPAWN_MARGIN + random_below(WORLD_HEIGHT - 2 * SPAWN_MARGIN);
    let color = random_color();
    Player { id, x, y, size: PLAYER_START_SIZE, color }
}

impl World {
    /// A world without players, stocked with pellets.
    pub fn new() -> (w: World)
        ensures
            w.wf(),
            w@.players.len() == 0,
            w@.food.len() == MAX_FOOD_COUNT,
    {
        let mut w = World::empty();
        w.spawn_food();
        w
    }

    /// An identifier that no pellet carries: a fresh one, or the first free
    /// one after it should it be taken.
    fn unused_food_id(&self) -> (id: u128)
        requires
            self.wf(),
        ensures
            !has_food(self@.food, id),
    {
        let base: u128 = fresh_id();
        let mut candidate: u128 = base;
        let mut k: usize = 0;
        while self.holds_food(candidate)
            invariant
                self.wf(),
                k <= self@.food.len(),
                candidate == probe(base, k as int),
                forall|j: int| 0 <= j < k ==> has_food(self@.food, #[trigger] probe(base, j)),
            decreases self@.food.len() - k,
        {
            proof {
                lemma_probe_finds_room(self@.food, base);
            }
            candidate = if candidate == u128::MAX { 0 } else { candidate + 1 };
            k += 1;
        }
        candidate
    }

    /// Tops the pellets up to the target count, each new one at a random
    /// place of the world and in a random colour. Does nothing when the
    /// world is stocked.
    pub fn spawn_food(&mut self)
        requires
            old(self).wf(),
        ensures
            final(self).wf(),
            final(self)@.players == old(self)@.players,
            refilled(old(self)@.food, final(self)@.food),
            old(self)@.food.len() == MAX_FOOD_COUNT ==> final(self)@ == old(self)@,
    {
        let ghost before = self@;
        while self.food.len() < MAX_FOOD_COUNT
            invariant
                self.wf(),
                self@.players == before.players,
                before.food.len() <= self@.food.len() <= MAX_FOOD_COUNT,
                self@.food.take(before.food.len() as int) == before.food,
                forall|i: int|
                    before.food.len() <= i < self@.food.len() ==> (#[trigger] self@.food[i]).color.in_palette(),
            decreases MAX_FOOD_COUNT - self.food.len(),
        {
            let id: u128 = self.unused_food_id();
            let x: i64 = random_below(WORLD_WIDTH);
            let y: i64 = random_below(WORLD_HEIGHT);
            let color = random_color();
            let ghost prior = self@.food;
            self.food.push(Food { id, x, y, color });
            proof {
                assert(self@.food == prior.push(Food { id, x, y, color }));
                assert(self@.food.take(before.food.len() as int) == prior.take(
                    before.food.len() as int,
                ));
                assert forall|i: int, j: int| 0 <= i < j < self@.food.len() implies
                    (#[trigger] self@.food[i]).id != (#[trigger] self@.food[j]).id by {
                    if j == prior.len() {
                        assert(prior[i].id != id);
                    } else {
                        assert(prior[i].id != prior[j].id);
                    }
                }
            }
        }
        proof {
            if before.food.len() == MAX_FOOD_COUNT {
                assert(self@.food == before.food);
            }
        }
    }

    /// Admits a new player under `id`: of the starting size, at a random
    /// place away from the edges, in a random colour.
    ///
    /// Fails, and changes nothing, when `id` is taken.
    pub fn admit_player(&mut self, id: ClientId) -> (r: Result<(), AdmitError>)
        requires
            old(self).wf(),
        ensures
            final(self).wf(),
            final(self)@.food == old(self)@.food,
            match r {
                Ok(_) => {
                    &&& !has_player(old(self)@.players, id)
                    &&& final(self)@.players.len() == old(self)@.players.len() + 1
                    &&& final(self)@.players.drop_last() == old(self)@.players
                    &&& newcomer(final(self)@.players.last(), id)
                },
                Err(e) => {
                    &&& e == AdmitError::Duplicate
                    &&& has_player(old(self)@.players, id)
                    &&& final(self)@ == old(self)@
                },
            },
    {
        let player = draw_newcomer(id);
        let r = self.insert_player(player);
        proof {
            if r.is_ok() {
                assert(self@.players.drop_last() == old(self)@.players);
            }
        }
        r
    }
}

/// The pellet lies inside the player's disc.
pub open spec fn within_reach(p: Player, f: Food) -> bool {
    dist_sq(f.x as int, f.y as int, p.x as int, p.y as int) < p.size * p.size
}

/// The test a pellet passes when it is out of `p`'s reach.
pub open spec fn spared_by(p: Player) -> spec_fn(Food) -> bool {
    |f: Food| !within_reach(p, f)
}

/// The pellets that `p` leaves, in their order.
pub open spec fn leftover(food: Seq<Food>, p: Player) -> Seq<Food> {
    food.filter(spared_by(p))
}

/// A size after a gain: their sum, or the limit where the sum passes it.
pub open spec fn grown(size: int, gain: int) -> int {
    if size + gain >= LIMIT {
        LIMIT as int
    } else {
        size + gain
    }
}

/// `p` after one tick of movement toward `(tx, ty)`, clamped into the
/// world for its size.
pub open spec fn relocated(p: Player, tx: int, ty: int) -> Player {
    let (nx, ny) = advanced(p.x as int, p.y as int, p.size as int, tx, ty);
    Player {
        x: confined(nx, p.size as int, WORLD_WIDTH as int) as i64,
        y: confined(ny, p.size as int, WORLD_HEIGHT as int) as i64,
        ..p
    }
}

/// `p` after eating so many pellets.
pub open spec fn fed(p: Player, pellets: int) -> Player {
    Player { size: grown(p.size as int, pellets * FOOD_VALUE) as i64, ..p }
}

impl WorldView {
    /// The world after the player that carries `id` has moved toward
    /// `(tx, ty)` and eaten what it reached there, before any refill: the
    /// player is relocated, every pellet within its reach is gone, and it
    /// has grown by the value of each. Without such a player, the world as
    /// it was.
    pub open spec fn after_move(self, id: ClientId, tx: int, ty: int) -> WorldView {
        if has_player(self.players, id) {
            let i = slot_of(self.players, id);
            let p = relocated(self.players[i], tx, ty);
            let rest = leftover(self.food, p);
            WorldView {
                players: self.players.update(i, fed(p, self.food.len() - rest.len())),
                food: rest,
            }
        } else {
            self
        }
    }
}

/// What a player leaves of valid pellets with distinct identifiers is again
/// such, no longer, and made of pellets that were there.
pub proof fn lemma_leftover_wf(food: Seq<Food>, keep: spec_fn(Food) -> bool)
    requires
        distinct_food(food),
        forall|i: int| 0 <= i < food.len() ==> (#[trigger] food[i]).valid(),
    ensures
        distinct_food(food.filter(keep)),
        food.filter(keep).len() <= food.len(),
        forall|i: int| 0 <= i < food.filter(keep).len() ==> (#[trigger] food.filter(keep)[i]).valid(),
        forall|i: int|
            0 <= i < food.filter(keep).len() ==> has_food(food, (#[trigger] food.filter(keep)[i]).id),
    decreases food.len(),
{
    reveal(Seq::filter);
    if food.len() > 0 {
        let rest = food.drop_last();
        let last = food.last();
        lemma_leftover_wf(rest, keep);
        let out = rest.filter(keep);
        let all = food.filter(keep);
        assert forall|i: int| 0 <= i < out.len() implies has_food(food, (#[trigger] out[i]).id)
            && out[i].id != last.id by {
            assert(has_food(rest, out[i].id));
            let k = choose|k: int| 0 <= k < rest.len() && (#[trigger] rest[k]).id == out[i].id;
            assert(food[k].id == out[i].id);
            assert(food[k].id != food[food.len() - 1].id);
        }
        if keep(last) {
            assert(all == out.push(last));
            assert(food[food.len() - 1].id == last.id);
            assert forall|i: int| 0 <= i < all.len() implies
                has_food(food, (#[trigger] all[i]).id) by {
                if i < out.len() {
                    assert(all[i] == out[i]);
                }
            }
        } else {
            assert(all == out);
        }
    }
}

/// Eating never shrinks a player: its size grows by the value of each
/// pellet, up to the limit.
pub proof fn lemma_fed_grows(p: Player, pellets: int)
    requires
        p.valid(),
        pellets >= 0,
    ensures
        fed(p, pellets).valid(),
        fed(p, pellets).size >= p.size,
        p.size + pellets * FOOD_VALUE <= LIMIT ==> fed(p, pellets).size == p.size + pellets * FOOD_VALUE,
        p.size + pellets * FOOD_VALUE > LIMIT ==> fed(p, pellets).size == LIMIT,
        fed(p, pellets).x == p.x && fed(p, pellets).y == p.y && fed(p, pellets).id == p.id,
{
}

/// After its move a player is valid, keeps identifier, size and colour,
/// and, when its size is at most half the world's extent, lies with its
/// whole disc inside the world.
pub proof fn lemma_relocated_inside(p: Player, tx: int, ty: int)
    requires
        p.valid(),
    ensures
        relocated(p, tx, ty).valid(),
        relocated(p, tx, ty).id == p.id,
        relocated(p, tx, ty).size == p.size,
        relocated(p, tx, ty).color == p.color,
        2 * p.size <= WORLD_WIDTH ==> p.size <= relocated(p, tx, ty).x <= WORLD_WIDTH - p.size,
        2 * p.size <= WORLD_HEIGHT ==> p.size <= relocated(p, tx, ty).y <= WORLD_HEIGHT - p.size,
{
}

impl World {
    /// Moves the player that carries `id` one tick toward `(tx, ty)`,
    /// clamps it into the world, removes every pellet within its reach and
    /// lets it grow by the value of each; returns how many it ate. Does
    /// nothing, and returns 0, when there is no such player.
    pub fn move_player(&mut self, id: ClientId, tx: i64, ty: i64) -> (eaten: usize)
        requires
            old(self).wf(),
        ensures
            final(self).wf(),
            final(self)@ == old(self)@.after_move(id, tx as int, ty as int),
            eaten == old(self)@.food.len() - final(self)@.food.len(),
    {
        let i: usize = match self.find_player(id) {
            Some(i) => i,
            None => {
                return 0;
            },
        };
        proof {
            lemma_slot_unique(self@.players, id, i as int);
        }
        let before: Player = self.players[i];
        let at = advance(before.x, before.y, before.size, tx, ty);
        let moved = Player {
            x: confine(at.x, before.size, WORLD_WIDTH),
            y: confine(at.y, before.size, WORLD_HEIGHT),
            ..before
        };
        assert(moved == relocated(before, tx as int, ty as int));
        proof {
            lemma_square_monotone(moved.size as int, LIMIT as int);
        }
        let reach: u128 = (moved.size as u128) * (moved.size as u128);
        let ghost food = self@.food;
        let mut kept: Vec<Food> = Vec::new();
        let mut k: usize = 0;
        while k < self.food.len()
            invariant
                k <= self.food.len(),
                self@.food == food,
                moved.valid(),
                reach == moved.size * moved.size,
                kept@ == food.take(k as int).filter(spared_by(moved)),
            decreases self.food.len() - k,
        {
            let pellet: Food = self.food[k];
            let d: u128 = distance_squared(pellet.x, pellet.y, moved.x, moved.y);
            proof {
                food.take(k as int).lemma_filter_push(pellet, spared_by(moved));
                assert(food.take(k as int).push(pellet) == food.take(k as int + 1));
            }
            if d >= reach {
                kept.push(pellet);
            }
            k += 1;
        }
        proof {
            assert(food.take(k as int) == food);
            lemma_leftover_wf(food, spared_by(moved));
        }
        let eaten: usize = self.food.len() - kept.len();
        let gain: i64 = (eaten as i64) * FOOD_VALUE;
        let size: i64 = if moved.size + gain >= LIMIT { LIMIT } else { moved.size + gain };
        let after = Player { size, ..moved };
        assert(after == fed(moved, eaten as int));
        self.players.set(i, after);
        self.food = kept;
        proof {
            assert(self@.players == old(self)@.players.update(i as int, after));
            assert forall|a: int, b: int| 0 <= a < b < self@.players.len() implies
                (#[trigger] self@.players[a]).id != (#[trigger] self@.players[b]).id by {
                assert(old(self)@.players[a].id != old(self)@.players[b].id);
            }
            assert forall|a: int| 0 <= a < self@.players.len() implies
                (#[trigger] self@.players[a]).valid() by {
                if a != i {
                    assert(old(self)@.players[a].valid());
                }
            }
        }
        eaten
    }

    /// Applies a movement intent: the player that carries `id` moves one
    /// tick toward `(tx, ty)` and eats what it reaches, as
    /// [`World::move_player`] says, and the pellets are topped up again, as
    /// [`World::spawn_food`] says. Does nothing when there is no such player.
    pub fn apply_movement_intent(&mut self, id: ClientId, tx: i64, ty: i64)
        requires
            old(self).wf(),
        ensures
            final(self).wf(),
            final(self)@.players == old(self)@.after_move(id, tx as int, ty as int).players,
            !has_player(old(self)@.players, id) ==> final(self)@ == old(self)@,
            has_player(old(self)@.players, id) ==> refilled(
                old(self)@.after_move(id, tx as int, ty as int).food,
                final(self)@.food,
            ),
    {
        if self.find_player(id).is_some() {
            self.move_player(id, tx, ty);
            self.spawn_food();
        }
    }
}

/// One player eating another.
#[derive(Clone, Copy, Debug, PartialEq, Eq, Structural)]
pub struct Encounter {
    pub eater: ClientId,
    pub eaten: ClientId,
}

/// `a` eats `b`: `a` is larger by more than a fifth of `b`'s size, and
/// `b`'s centre lies inside `a`'s disc.
pub open spec fn eats(a: Player, b: Player) -> bool {
    &&& 5 * (a.size - b.size) > b.size
    &&& dist_sq(b.x as int, b.y as int, a.x as int, a.y as int) < a.size * a.size
}

/// What happens between two players: the one that eats the other, if
/// either does.
pub open spec fn clash(a: Player, b: Player) -> Option<Encounter> {
    if eats(a, b) {
        Some(Encounter { eater: a.id, eaten: b.id })
    } else if eats(b, a) {
        Some(Encounter { eater: b.id, eaten: a.id })
    } else {
        None
    }
}

/// The encounters of player `i` with the players `j`, `i < j < upto`, by
/// rising `j`.
pub open spec fn clashes_of(ps: Seq<Player>, i: int, upto: int) -> Seq<Encounter>
    decreases upto - i,
{
    if upto <= i + 1 {
        Seq::empty()
    } else {
        let earlier = clashes_of(ps, i, upto - 1);
        match clash(ps[i], ps[upto - 1]) {
            Some(e) => earlier.push(e),
            None => earlier,
        }
    }
}

/// The encounters of the players `i < rows` with those that follow them,
/// by rising `i`, then by rising `j`.
pub open spec fn clashes_before(ps: Seq<Player>, rows: int) -> Seq<Encounter>
    decreases rows,
{
    if rows <= 0 {
        Seq::empty()
    } else {
        clashes_before(ps, rows - 1) + clashes_of(ps, rows - 1, ps.len() as int)
    }
}

/// Every encounter among `ps`, each pair of players looked at once: pairs
/// are ordered by the position of their earlier player, then of their
/// later one. This is the order in which a combat pass settles them.
pub open spec fn encounters(ps: Seq<Player>) -> Seq<Encounter> {
    clashes_before(ps, ps.len() as int)
}

/// The players after one encounter is settled: the eater, if it is still
/// there, has grown by half the size of the eaten, if that is still there;
/// the eaten is gone either way.
pub open spec fn settle_one(ps: Seq<Player>, e: Encounter) -> Seq<Player> {
    let gain = if has_player(ps, e.eaten) {
        ps[slot_of(ps, e.eaten)].size / 2
    } else {
        0
    };
    let fattened = if has_player(ps, e.eater) {
        let i = slot_of(ps, e.eater);
        ps.update(i, Player { size: grown(ps[i].size as int, gain as int) as i64, ..ps[i] })
    } else {
        ps
    };
    without_player(fattened, e.eaten)
}

/// The players after the encounters `es` are settled one after the other.
pub open spec fn settled(ps: Seq<Player>, es: Seq<Encounter>) -> Seq<Player>
    decreases es.len(),
{
    if es.len() == 0 {
        ps
    } else {
        settled(settle_one(ps, es.first()), es.drop_first())
    }
}

/// No player eats itself, and of two players at most one eats the other.
pub proof fn lemma_eats_asymmetric(a: Player, b: Player)
    requires
        a.valid(),
        b.valid(),
    ensures
        !eats(a, a),
        eats(a, b) ==> !eats(b, a),
{
}

/// Whether `a` eats `b`.
pub fn can_eat(a: &Player, b: &Player) -> (r: bool)
    requires
        a.valid(),
        b.valid(),
    ensures
        r == eats(*a, *b),
{
    proof {
        lemma_square_monotone(a.size as int, LIMIT as int);
    }
    let reach: u128 = (a.size as u128) * (a.size as u128);
    5 * (a.size - b.size) > b.size && distance_squared(b.x, b.y, a.x, a.y) < reach
}

/// What happens between `a` and `b`.
pub fn clash_between(a: &Player, b: &Player) -> (r: Option<Encounter>)
    requires
        a.valid(),
        b.valid(),
    ensures
        r == clash(*a, *b),
{
    if can_eat(a, b) {
        Some(Encounter { eater: a.id, eaten: b.id })
    } else if can_eat(b, a) {
        Some(Encounter { eater: b.id, eaten: a.id })
    } else {
        None
    }
}

impl World {
    /// Every encounter among the players as they stand; see [`encounters`].
    /// Nothing is changed.
    pub fn detect_encounters(&self) -> (found: Vec<Encounter>)
        requires
            self.wf(),
        ensures
            found@ == encounters(self@.players),
    {
        let n: usize = self.players.len();
        let ghost ps = self@.players;
        let mut found: Vec<Encounter> = Vec::new();
        let mut i: usize = 0;
        while i < n
            invariant
                self.wf(),
                ps == self@.players,
                n == ps.len(),
                i <= n,
                found@ == clashes_before(ps, i as int),
            decreases n - i,
        {
            let ghost head = found@;
            let mut j: usize = i + 1;
            assert(found@ == head + clashes_of(ps, i as int, j as int));
            while j < n
                invariant
                    self.wf(),
                    ps == self@.players,
                    n == ps.len(),
                    i < n,
                    i + 1 <= j <= n,
                    found@ == head + clashes_of(ps, i as int, j as int),
                decreases n - j,
            {
                let ghost row = clashes_of(ps, i as int, j as int);
                match clash_between(&self.players[i], &self.players[j]) {
                    Some(e) => {
                        found.push(e);
                        assert(found@ == head + row.push(e));
                    },
                    None => {},
                }
                j += 1;
            }
            i += 1;
        }
        found
    }

    /// Settles one encounter; see [`settle_one`].
    pub fn settle(&mut self, e: Encounter)
        requires
            old(self).wf(),
        ensures
            final(self).wf(),
            final(self)@.food == old(self)@.food,
            final(self)@.players == settle_one(old(self)@.players, e),
    {
        let gain: i64 = match self.find_player(e.eaten) {
            Some(j) => {
                proof {
                    lemma_slot_unique(self@.players, e.eaten, j as int);
                }
                self.players[j].size / 2
            },
            None => 0,
        };
        match self.find_player(e.eater) {
            Some(i) => {
                proof {
                    lemma_slot_unique(self@.players, e.eater, i as int);
                }
                let p: Player = self.players[i];
                let size: i64 = if p.size + gain >= LIMIT { LIMIT } else { p.size + gain };
                self.players.set(i, Player { size, ..p });
                proof {
                    assert forall|a: int, b: int| 0 <= a < b < self@.players.len() implies
                        (#[trigger] self@.players[a]).id != (#[trigger] self@.players[b]).id by {
                        assert(old(self)@.players[a].id != old(self)@.players[b].id);
                    }
                    assert forall|a: int| 0 <= a < self@.players.len() implies
                        (#[trigger] self@.players[a]).valid() by {
                        if a != i {
                            assert(old(self)@.players[a].valid());
                        }
                    }
                }
            },
            None => {},
        }
        self.remove_player(e.eaten);
    }

    /// One combat pass: finds every encounter among the players as they
    /// stand, then settles them in the order found. Returns the encounters.
    pub fn resolve_combat(&mut self) -> (found: Vec<Encounter>)
        requires
            old(self).wf(),
        ensures
            final(self).wf(),
            final(self)@.food == old(self)@.food,
            found@ == encounters(old(self)@.players),
            final(self)@.players == settled(old(self)@.players, found@),
    {
        let found = self.detect_encounters();
        let mut k: usize = 0;
        assert(found@.skip(0) == found@);
        while k < found.len()
            invariant
                self.wf(),
                self@.food == old(self)@.food,
                k <= found.len(),
                settled(old(self)@.players, found@) == settled(self@.players, found@.skip(k as int)),
            decreases found.len() - k,
        {
            assert(found@.skip(k as int).drop_first() == found@.skip(k as int + 1));
            self.settle(found[k]);
            k += 1;
        }
        found
    }
}

} // verus!
