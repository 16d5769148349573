//! What holds of a combat pass: which encounters it finds, that eating
//! goes one way only, and what settling an encounter does to each player.

use vstd::prelude::*;
use crate::units::ClientId;
use crate::world::{
    clash, clashes_before, clashes_of, distinct_players, eats, encounters, grown, has_player,
    lemma_eats_asymmetric, lemma_removed_absent, lemma_slot_unique, settle_one, settled,
    slot_of, without_player, Encounter, Player,
};

verus! {

/// All players of `ps` are valid and carry distinct identifiers.
pub open spec fn sound_players(ps: Seq<Player>) -> bool {
    &&& distinct_players(ps)
    &&& forall|i: int| 0 <= i < ps.len() ==> (#[trigger] ps[i]).valid()
}

/// The player of `ps` that carries `id`.
pub open spec fn player_of(ps: Seq<Player>, id: ClientId) -> Player {
    ps[slot_of(ps, id)]
}

/// `e` is what happens between the players at positions `i < j`.
pub open spec fn arises(ps: Seq<Player>, i: int, j: int, e: Encounter) -> bool {
    0 <= i < j < ps.len() && clash(ps[i], ps[j]) == Some(e)
}

/// An encounter names the two players it arises from, and the one named
/// eater eats the other.
pub proof fn lemma_arises_names(ps: Seq<Player>, i: int, j: int, e: Encounter)
    requires
        sound_players(ps),
        arises(ps, i, j, e),
    ensures
        (e.eater == ps[i].id && e.eaten == ps[j].id && eats(ps[i], ps[j])) || (e.eater == ps[j].id
            && e.eaten == ps[i].id && eats(ps[j], ps[i])),
        e.eater != e.eaten,
{
    assert(ps[i].id != ps[j].id);
}

proof fn lemma_row_origin(ps: Seq<Player>, i: int, upto: int, k: int)
    requires
        0 <= i,
        upto <= ps.len(),
        0 <= k < clashes_of(ps, i, upto).len(),
    ensures
        exists|j: int| i < j < upto && #[trigger] arises(ps, i, j, clashes_of(ps, i, upto)[k]),
    decreases upto - i,
{
    if upto > i + 1 {
        let earlier = clashes_of(ps, i, upto - 1);
        if k < earlier.len() {
            lemma_row_origin(ps, i, upto - 1, k);
            let j = choose|j: int| i < j < upto - 1 && #[trigger] arises(ps, i, j, earlier[k]);
            assert(arises(ps, i, j, clashes_of(ps, i, upto)[k]));
        } else {
            assert(arises(ps, i, upto - 1, clashes_of(ps, i, upto)[k]));
        }
    }
}

proof fn lemma_row_listed(ps: Seq<Player>, i: int, upto: int, j: int, e: Encounter)
    requires
        i < j < upto <= ps.len(),
        arises(ps, i, j, e),
    ensures
        clashes_of(ps, i, upto).contains(e),
    decreases upto - i,
{
    let earlier = clashes_of(ps, i, upto - 1);
    let row = clashes_of(ps, i, upto);
    if j == upto - 1 {
        assert(row[earlier.len() as int] == e);
    } else {
        lemma_row_listed(ps, i, upto - 1, j, e);
        let k = choose|k: int| 0 <= k < earlier.len() && earlier[k] == e;
        assert(row[k] == e);
    }
}

proof fn lemma_table_origin(ps: Seq<Player>, rows: int, k: int)
    requires
        0 <= rows <= ps.len(),
        0 <= k < clashes_before(ps, rows).len(),
    ensures
        exists|i: int, j: int| 0 <= i < rows && #[trigger] arises(ps, i, j, clashes_before(ps, rows)[k]),
    decreases rows,
{
    if rows > 0 {
        let above = clashes_before(ps, rows - 1);
        let row = clashes_of(ps, rows - 1, ps.len() as int);
        if k < above.len() {
            lemma_table_origin(ps, rows - 1, k);
            let (i, j) = choose|i: int, j: int| 0 <= i < rows - 1 && #[trigger] arises(ps, i, j, above[k]);
            assert(arises(ps, i, j, clashes_before(ps, rows)[k]));
        } else {
            lemma_row_origin(ps, rows - 1, ps.len() as int, k - above.len());
            let j = choose|j: int| rows - 1 < j < ps.len() && #[trigger] arises(ps, rows - 1, j, row[k - above.len()]);
            assert(arises(ps, rows - 1, j, clashes_before(ps, rows)[k]));
        }
    }
}

proof fn lemma_table_listed(ps: Seq<Player>, rows: int, i: int, j: int, e: Encounter)
    requires
        0 <= i < rows <= ps.len(),
        arises(ps, i, j, e),
    ensures
        clashes_before(ps, rows).contains(e),
    decreases rows,
{
    let above = clashes_before(ps, rows - 1);
    let row = clashes_of(ps, rows - 1, ps.len() as int);
    let table = clashes_before(ps, rows);
    if i == rows - 1 {
        lemma_row_listed(ps, i, ps.len() as int, j, e);
        let k = choose|k: int| 0 <= k < row.len() && row[k] == e;
        assert(table[above.len() + k] == e);
    } else {
        lemma_table_listed(ps, rows - 1, i, j, e);
        let k = choose|k: int| 0 <= k < above.len() && above[k] == e;
        assert(table[k] == e);
    }
}

/// Every encounter a pass reports is between two players of the world, the
/// one named eater eating the other.
pub proof fn lemma_encounters_sound(ps: Seq<Player>, e: Encounter)
    requires
        sound_players(ps),
        encounters(ps).contains(e),
    ensures
        has_player(ps, e.eater),
        has_player(ps, e.eaten),
        eats(player_of(ps, e.eater), player_of(ps, e.eaten)),
{
    let k = choose|k: int| 0 <= k < encounters(ps).len() && encounters(ps)[k] == e;
    lemma_table_origin(ps, ps.len() as int, k);
    let (i, j) = choose|i: int, j: int| 0 <= i < ps.len() && #[trigger] arises(ps, i, j, e);
    lemma_arises_names(ps, i, j, e);
    lemma_slot_unique(ps, ps[i].id, i);
    lemma_slot_unique(ps, ps[j].id, j);
}

/// Whenever one player of the world eats another, the pass reports it.
pub proof fn lemma_encounters_complete(ps: Seq<Player>, i: int, j: int)
    requires
        sound_players(ps),
        0 <= i < ps.len(),
        0 <= j < ps.len(),
        eats(ps[i], ps[j]),
    ensures
        encounters(ps).contains(Encounter { eater: ps[i].id, eaten: ps[j].id }),
{
    let e = Encounter { eater: ps[i].id, eaten: ps[j].id };
    lemma_eats_asymmetric(ps[i], ps[j]);
    if i < j {
        assert(arises(ps, i, j, e));
        lemma_table_listed(ps, ps.len() as int, i, j, e);
    } else {
        assert(arises(ps, j, i, e));
        lemma_table_listed(ps, ps.len() as int, j, i, e);
    }
}

/// Eating goes one way: no pass reports a player eating itself, nor two
/// players eating each other.
pub proof fn lemma_eating_one_way(ps: Seq<Player>, a: ClientId, b: ClientId)
    requires
        sound_players(ps),
        encounters(ps).contains(Encounter { eater: a, eaten: b }),
    ensures
        a != b,
        !encounters(ps).contains(Encounter { eater: b, eaten: a }),
{
    let e = Encounter { eater: a, eaten: b };
    let back = Encounter { eater: b, eaten: a };
    lemma_encounters_sound(ps, e);
    let i = slot_of(ps, a);
    let j = slot_of(ps, b);
    lemma_eats_asymmetric(ps[i], ps[j]);
    if encounters(ps).contains(back) {
        lemma_encounters_sound(ps, back);
    }
}

proof fn lemma_row_unique(ps: Seq<Player>, i: int, upto: int)
    requires
        sound_players(ps),
        0 <= i,
        upto <= ps.len(),
    ensures
        clashes_of(ps, i, upto).no_duplicates(),
    decreases upto - i,
{
    if upto > i + 1 {
        let earlier = clashes_of(ps, i, upto - 1);
        let row = clashes_of(ps, i, upto);
        lemma_row_unique(ps, i, upto - 1);
        if row.len() > earlier.len() {
            let e = row[earlier.len() as int];
            assert(arises(ps, i, upto - 1, e));
            lemma_arises_names(ps, i, upto - 1, e);
            assert forall|k: int| 0 <= k < earlier.len() implies earlier[k] != e by {
                lemma_row_origin(ps, i, upto - 1, k);
                let j = choose|j: int| i < j < upto - 1 && #[trigger] arises(ps, i, j, earlier[k]);
                lemma_arises_names(ps, i, j, earlier[k]);
                assert(ps[j].id != ps[upto - 1].id);
            }
        }
    }
}

proof fn lemma_table_unique(ps: Seq<Player>, rows: int)
    requires
        sound_players(ps),
        0 <= rows <= ps.len(),
    ensures
        clashes_before(ps, rows).no_duplicates(),
    decreases rows,
{
    if rows > 0 {
        let above = clashes_before(ps, rows - 1);
        let row = clashes_of(ps, rows - 1, ps.len() as int);
        let table = clashes_before(ps, rows);
        lemma_table_unique(ps, rows - 1);
        lemma_row_unique(ps, rows - 1, ps.len() as int);
        assert forall|a: int, b: int| 0 <= a < above.len() && 0 <= b < row.len() implies above[a]
            != row[b] by {
            lemma_table_origin(ps, rows - 1, a);
            let (i, j) = choose|i: int, j: int| 0 <= i < rows - 1 && #[trigger] arises(ps, i, j, above[a]);
            lemma_arises_names(ps, i, j, above[a]);
            lemma_row_origin(ps, rows - 1, ps.len() as int, b);
            let m = choose|m: int| rows - 1 < m < ps.len() && #[trigger] arises(ps, rows - 1, m, row[b]);
            lemma_arises_names(ps, rows - 1, m, row[b]);
            assert(ps[i].id != ps[rows - 1].id);
            assert(ps[i].id != ps[m].id);
        }
        assert forall|a: int, b: int| 0 <= a < table.len() && 0 <= b < table.len() && a != b implies
            table[a]
            != table[b] by {
            if a < above.len() && b < above.len() {
                assert(above[a] != above[b]);
            } else if a >= above.len() && b >= above.len() {
                assert(row[a - above.len()] != row[b - above.len()]);
            } else if a < above.len() {
                assert(above[a] != row[b - above.len()]);
            } else {
                assert(above[b] != row[a - above.len()]);
            }
        }
    }
}

/// A pass reports each encounter once.
pub proof fn lemma_encounters_unique(ps: Seq<Player>)
    requires
        sound_players(ps),
    ensures
        encounters(ps).no_duplicates(),
{
    lemma_table_unique(ps, ps.len() as int);
}

/// What the player that carries `id` is after `e` is settled, provided it
/// is not the one eaten: grown by half the size of the eaten, up to the
/// limit, when it is the eater and the eaten was still there; else as it
/// was.
pub open spec fn survivor(ps: Seq<Player>, e: Encounter, id: ClientId) -> Player {
    let p = player_of(ps, id);
    if id == e.eater && has_player(ps, e.eaten) {
        Player { size: grown(p.size as int, (player_of(ps, e.eaten).size / 2) as int) as i64, ..p }
    } else {
        p
    }
}

/// The players with the eater of `e` grown, before the eaten is removed.
spec fn fattened(ps: Seq<Player>, e: Encounter) -> Seq<Player> {
    let gain = if has_player(ps, e.eaten) {
        ps[slot_of(ps, e.eaten)].size / 2
    } else {
        0
    };
    if has_player(ps, e.eater) {
        let i = slot_of(ps, e.eater);
        ps.update(i, Player { size: grown(ps[i].size as int, gain as int) as i64, ..ps[i] })
    } else {
        ps
    }
}

proof fn lemma_fattened(ps: Seq<Player>, e: Encounter)
    requires
        sound_players(ps),
    ensures
        settle_one(ps, e) == without_player(fattened(ps, e), e.eaten),
        sound_players(fattened(ps, e)),
        fattened(ps, e).len() == ps.len(),
        forall|i: int| 0 <= i < ps.len() ==> (#[trigger] fattened(ps, e)[i]).id == ps[i].id,
        forall|i: int|
            0 <= i < ps.len() ==> #[trigger] fattened(ps, e)[i] == survivor(ps, e, ps[i].id) || ps[i].id
                == e.eaten,
{
    let out = fattened(ps, e);
    if has_player(ps, e.eaten) {
        let j = slot_of(ps, e.eaten);
        assert(ps[j].valid());
    }
    if has_player(ps, e.eater) {
        let i = slot_of(ps, e.eater);
        assert(ps[i].valid());
    }
    assert forall|a: int, b: int| 0 <= a < b < out.len() implies
        (#[trigger] out[a]).id != (#[trigger] out[b]).id by {
        assert(ps[a].id != ps[b].id);
    }
    assert forall|i: int| 0 <= i < out.len() implies (#[trigger] out[i]).valid() by {
        assert(ps[i].valid());
    }
    assert forall|i: int| 0 <= i < ps.len() implies #[trigger] out[i] == survivor(ps, e, ps[i].id)
        || ps[i].id == e.eaten by {
        lemma_slot_unique(ps, ps[i].id, i);
    }
}

/// Settling an encounter leaves valid players with distinct identifiers,
/// and the eaten is not among them.
pub proof fn lemma_settle_one_sound(ps: Seq<Player>, e: Encounter)
    requires
        sound_players(ps),
    ensures
        sound_players(settle_one(ps, e)),
        !has_player(settle_one(ps, e), e.eaten),
{
    lemma_fattened(ps, e);
    let mid = fattened(ps, e);
    if has_player(mid, e.eaten) {
        let s = slot_of(mid, e.eaten);
        lemma_removed_absent(mid, s);
        let out = mid.remove(s);
        assert forall|i: int| 0 <= i < out.len() implies (#[trigger] out[i]).valid() by {
            assert(mid[if i < s { i } else { i + 1 }].valid());
        }
    }
}

/// Settling an encounter keeps every player but the eaten, and changes
/// none of them but the eater: see [`survivor`].
pub proof fn lemma_settle_one_keeps(ps: Seq<Player>, e: Encounter, id: ClientId)
    requires
        sound_players(ps),
        id != e.eaten,
    ensures
        has_player(settle_one(ps, e), id) <==> has_player(ps, id),
        has_player(ps, id) ==> player_of(settle_one(ps, e), id) == survivor(ps, e, id),
{
    lemma_fattened(ps, e);
    lemma_settle_one_sound(ps, e);
    let mid = fattened(ps, e);
    let out = settle_one(ps, e);
    if has_player(mid, e.eaten) {
        let s = slot_of(mid, e.eaten);
        lemma_removed_absent(mid, s);
        if has_player(ps, id) {
            let i = slot_of(ps, id);
            assert(mid[i].id == id);
            let k = if i < s { i } else { i - 1 };
            assert(out[k] == mid[i]);
            lemma_slot_unique(out, id, k);
        }
        if has_player(out, id) {
            let k = slot_of(out, id);
            let i = if k < s { k } else { k + 1 };
            assert(out[k] == mid[i]);
            assert(ps[i].id == id);
        }
    } else {
        if has_player(ps, id) {
            let i = slot_of(ps, id);
            assert(mid[i].id == id);
            lemma_slot_unique(out, id, i);
        }
        if has_player(out, id) {
            let k = slot_of(out, id);
            assert(ps[k].id == id);
        }
    }
}

/// A kill feeds the eater exactly half the size of the eaten, up to the
/// limit, and no survivor is ever smaller than before.
pub proof fn lemma_survivor_size(ps: Seq<Player>, e: Encounter, id: ClientId)
    requires
        sound_players(ps),
        has_player(ps, id),
    ensures
        survivor(ps, e, id).size >= player_of(ps, id).size,
        survivor(ps, e, id).id == id,
        survivor(ps, e, id).x == player_of(ps, id).x,
        survivor(ps, e, id).y == player_of(ps, id).y,
        id == e.eater && has_player(ps, e.eaten) ==> survivor(ps, e, id).size == grown(
            player_of(ps, id).size as int,
            (player_of(ps, e.eaten).size / 2) as int,
        ),
        !(id == e.eater && has_player(ps, e.eaten)) ==> survivor(ps, e, id) == player_of(ps, id),
{
    assert(player_of(ps, id).valid());
    if has_player(ps, e.eaten) {
        assert(player_of(ps, e.eaten).valid());
    }
}

/// After any run of settled encounters the players are valid and
/// distinct, whoever is left was there before, where it was, and is no
/// smaller.
pub proof fn lemma_settled_never_shrinks(ps: Seq<Player>, es: Seq<Encounter>, id: ClientId)
    requires
        sound_players(ps),
    ensures
        sound_players(settled(ps, es)),
        has_player(settled(ps, es), id) ==> {
            &&& has_player(ps, id)
            &&& player_of(settled(ps, es), id).size >= player_of(ps, id).size
            &&& player_of(settled(ps, es), id).x == player_of(ps, id).x
            &&& player_of(settled(ps, es), id).y == player_of(ps, id).y
        },
    decreases es.len(),
{
    if es.len() > 0 {
        let e = es.first();
        let next = settle_one(ps, e);
        lemma_settle_one_sound(ps, e);
        lemma_settled_never_shrinks(next, es.drop_first(), id);
        if has_player(settled(ps, es), id) {
            lemma_settle_one_keeps(ps, e, id);
            lemma_survivor_size(ps, e, id);
        }
    }
}

/// Whoever a pass reports as eaten is gone when the pass is over.
pub proof fn lemma_settled_removes(ps: Seq<Player>, es: Seq<Encounter>, k: int)
    requires
        sound_players(ps),
        0 <= k < es.len(),
    ensures
        !has_player(settled(ps, es), es[k].eaten),
    decreases es.len(),
{
    let e = es.first();
    let next = settle_one(ps, e);
    lemma_settle_one_sound(ps, e);
    if k == 0 {
        if has_player(settled(ps, es), e.eaten) {
            lemma_settled_never_shrinks(next, es.drop_first(), e.eaten);
        }
    } else {
        lemma_settled_removes(next, es.drop_first(), k - 1);
    }
}

} // verus!
