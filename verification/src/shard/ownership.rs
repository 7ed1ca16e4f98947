//! Who owns what on a shard, and where new cards go.
use vstd::prelude::*;

use crate::cards::outcomes as bits;
use crate::history;
use crate::packed;
use crate::players::outcomes as places;
use crate::shard::cards;
use crate::shard::cards::Card;
use crate::shard::laws;
use crate::shard::model;
use crate::shard::model::Micro;
use crate::shard::outcomes;
use crate::shard::place;
use crate::shard::tables::Db;
use crate::shard::tables::Env;
use crate::shard::utilities;

verus! {

// ---- owners --------------------------------------------------------
/// A soul that contains a card is a player's soul by its definition, and the player it
/// belongs to is who owns the card in the end.
pub proof fn souls_lead_to_their_player(e: Env, db: Db, card_id: u32)
    ensures
        cards::soul_at(db, card_id, e.now_ms) matches Some(s) ==> (history::prior_at(
            db.cards,
            s,
            e.now_ms,
        ) matches Some(c) && c.packed_definition >= model::PLAYER_SOUL_FLOOR && cards::player_of(
            e,
            db,
            card_id,
        ) == Some(c.owner_id)),
{
    lemma_walk_ends_at_a_soul(db.cards, card_id, e.now_ms, 32);
}

proof fn lemma_walk_ends_at_a_soul(rows: Seq<Card>, card_id: u32, t: u64, steps: nat)
    ensures
        cards::owner_walk(rows, card_id, t, steps) matches cards::OwnerWalk::Soul(s, p) ==> (
        history::prior_at(rows, s, t) matches Some(c) && c.packed_definition
            >= model::PLAYER_SOUL_FLOOR && c.owner_id == p),
    decreases steps,
{
    if steps > 0 {
        if let Some(row) = history::prior_at(rows, card_id, t) {
            lemma_walk_ends_at_a_soul(rows, row.owner_id, t, (steps - 1) as nat);
        }
    }
}

/// An item belongs to the soul and to the player that its owner belongs to, as far as
/// the chain is followed for both.
pub proof fn items_belong_where_their_owner_does(e: Env, db: Db, card_id: u32, c: Card)
    requires
        history::prior_at(db.cards, card_id, e.now_ms) == Some(c),
        c.packed_definition < model::PLAYER_SOUL_FLOOR,
        c.owner_id != 0,
        cards::player_of(e, db, card_id) is Some,
    ensures
        cards::player_of(e, db, c.owner_id) == cards::player_of(e, db, card_id),
        cards::soul_at(db, c.owner_id, e.now_ms) == cards::soul_at(db, card_id, e.now_ms),
{
    lemma_longer_walks(db.cards, c.owner_id, e.now_ms, 31);
    assert(cards::owner_walk(db.cards, card_id, e.now_ms, 32) == cards::owner_walk(
        db.cards,
        c.owner_id,
        e.now_ms,
        31,
    ));
}

proof fn lemma_longer_walks(rows: Seq<Card>, card_id: u32, t: u64, steps: nat)
    ensures
        !(cards::owner_walk(rows, card_id, t, steps) is Lost) ==> cards::owner_walk(
            rows,
            card_id,
            t,
            steps + 1,
        ) == cards::owner_walk(rows, card_id, t, steps),
    decreases steps,
{
    if steps > 0 {
        if let Some(row) = history::prior_at(rows, card_id, t) {
            lemma_longer_walks(rows, row.owner_id, t, (steps - 1) as nat);
        }
    }
}

/// A soul is its own container, and the items that it owns share it.
pub proof fn souls_contain_their_items(db: Db, soul: u32, item: u32, t: u64, s: Card, c: Card)
    requires
        history::prior_at(db.cards, soul, t) == Some(s),
        s.packed_definition >= model::PLAYER_SOUL_FLOOR,
        history::prior_at(db.cards, item, t) == Some(c),
        c.packed_definition < model::PLAYER_SOUL_FLOOR,
        c.owner_id == soul,
    ensures
        cards::container_at(db, soul, t) == soul,
        cards::container_at(db, item, t) == cards::container_at(db, soul, t),
        soul != 0 ==> cards::soul_at(db, item, t) == Some(soul),
{
    reveal_with_fuel(cards::owner_walk, 3);
}

/// The card reached by going up from a card to its owner `n` times.
pub open spec fn above(rows: Seq<Card>, card_id: u32, t: u64, n: nat) -> Option<u32>
    decreases n,
{
    if n == 0 {
        Some(card_id)
    } else {
        match history::prior_at(rows, card_id, t) {
            Some(c) if c.packed_definition < model::PLAYER_SOUL_FLOOR && c.owner_id != 0 => above(
                rows,
                c.owner_id,
                t,
                (n - 1) as nat,
            ),
            _ => None,
        }
    }
}

/// An owner that is let through never is, nor ever leads up to, the card itself.
pub proof fn accepted_owners_close_no_loop(e: Env, db: Db, card_id: u32, new_owner: u32, n: nat)
    requires
        !cards::closes_cycle(e, db, card_id, new_owner),
        new_owner != 0,
    ensures
        above(db.cards, new_owner, e.now_ms, n) != Some(card_id),
{
    lemma_never_above(db.cards, new_owner, card_id, e.now_ms, 32, n);
}

proof fn lemma_never_above(rows: Seq<Card>, cur: u32, card_id: u32, t: u64, steps: nat, n: nat)
    requires
        cur != card_id,
        !cards::reaches(rows, cur, card_id, t, steps),
    ensures
        above(rows, cur, t, n) != Some(card_id),
    decreases n,
{
    if n > 0 {
        if let Some(c) = history::prior_at(rows, cur, t) {
            if c.packed_definition < model::PLAYER_SOUL_FLOOR && c.owner_id != 0 {
                lemma_never_above(rows, c.owner_id, card_id, t, (steps - 1) as nat, (n - 1) as nat);
            }
        }
    }
}

// ---- new cards -----------------------------------------------------
/// A card that is created is found where it was sent: at the given cell of the given
/// zone; without a zone, in its owner's bucket on the inventory surface, or in the
/// first zone of any other surface. It has the owner, the definition and the stock
/// given, and a soul has a private row without blueprints.
pub proof fn created_cards_are_found_where_sent(
    e: Env,
    db: Db,
    t: u64,
    owner_id: u32,
    surface: u8,
    def: u16,
    stock: u32,
    macro_zone: u64,
    q: u8,
    r: u8,
)
    requires
        t < packed::TIME_RADIX,
        q < 8,
        r < 8,
        history::distinct_versions(db.cards),
        outcomes::unused(db.cards, cards::next_id(db)),
    ensures
        ({
            let d = utilities::card_created(
                e,
                db,
                t,
                owner_id,
                surface,
                def,
                stock,
                macro_zone,
                q,
                r,
            );
            let id = cards::next_id(db);
            &&& history::prior_at(d.cards, id, t) matches Some(c) && c.owner_id == owner_id
                && c.packed_definition == def && c.stock == stock && c.flags == 0 && (macro_zone != 0
                ==> c.macro_zone == macro_zone && cards::placement(c) == (Micro::Loose {
                local_q: q,
                local_r: r,
                x: 0,
                y: 0,
            })) && (macro_zone == 0 ==> places::zone_is(
                c.macro_zone,
                if surface == 1 {
                    owner_id
                } else {
                    0
                },
                surface,
                0,
                0,
            ) && c.micro_location == 0)
            &&& def / 4096 == crate::players::souls::SOUL_CARD_TYPE ==> d.soul_privates.len() > 0
                && d.soul_privates.last().card_id == id && d.soul_privates.last().blueprints_0 == 0
        }),
{
    places::lemma_zone_is(owner_id, 1, 0, 0);
    places::lemma_zone_is(0, surface, 0, 0);
    let at = utilities::spawn_point(owner_id, surface, macro_zone, q, r);
    let id = cards::next_id(db);
    let taken = cards::id_taken(db);
    let card = cards::fresh_card(id, at.0, at.1, owner_id, def, 0, stock as u64);
    history::prior_at_is_greatest(db.cards, id, t);
    bits::lemma_nothing_shared(e.state.dead);
    laws::placed_card_reads_back(
        at.1,
        Card {
            valid_at: 0,
            card_id: id,
            macro_zone: at.0,
            micro_location: 0,
            owner_id,
            packed_definition: def,
            flags: 0,
            flags_bk: 0,
            stock: stock as u64,
        },
    );
    laws::write_reads_back(e, taken, card, t);
    assert(history::prior_at(taken.cards, id, t) is None);
    assert(cards::after_write(e, taken, card, t) == cards::row_written(e, taken, card, t));
}

/// The card stands loose on a cell of its zone.
pub open spec fn on_cell(c: Card, q: u8, r: u8) -> bool {
    cards::placement(c) matches Micro::Loose { local_q, local_r, .. } && local_q == q && local_r
        == r
}

/// The cell that is found free for a new card is the first, row by row, within the
/// distance of the origin on which no live card stands loose.
pub proof fn free_cells_are_free(
    e: Env,
    db: Db,
    macro_zone: u64,
    distance: u16,
    t: u64,
    k: int,
    q: u8,
    r: u8,
    id: u32,
    o: Card,
)
    requires
        0 <= k < 49,
        q < 7,
        r < 7,
        cards::is_free(e, db, macro_zone, distance, t, 7 * r + q),
        k <= 7 * r + q,
        history::prior_at(db.cards, id, t) == Some(o),
    ensures
        ({
            let c = cards::free_from(e, db, macro_zone, distance, t, k);
            let z = packed::zone_coords(macro_zone);
            let hq = 7 * z.0 + c.0;
            let hr = 7 * z.1 + c.1;
            let d = distance as int;
            &&& c.0 < 7 && c.1 < 7
            &&& 7 * c.1 + c.0 <= 7 * r + q
            &&& -d <= hq <= d && -d <= hr <= d && -d <= hq + hr <= d
            &&& !(o.macro_zone == macro_zone && o.flags & e.state.dead == 0 && on_cell(o, c.0, c.1))
        }),
    decreases 49 - k,
{
    if cards::is_free(e, db, macro_zone, distance, t, k) {
        let c = cards::free_from(e, db, macro_zone, distance, t, k);
        history::prior_at_is_greatest(db.cards, id, t);
        let i = choose|i: int| 0 <= i < db.cards.len() && db.cards[i] == o;
        if o.macro_zone == macro_zone && o.flags & e.state.dead == 0 && on_cell(o, c.0, c.1) {
            assert(cards::shows_occupant(e, db.cards, db.cards[i], macro_zone, c.0, c.1, t));
        }
    } else {
        free_cells_are_free(e, db, macro_zone, distance, t, k + 1, q, r, id, o);
    }
}

/// A cell within the distance of the origin on which no live card stands loose is free.
pub proof fn empty_cells_are_free(
    e: Env,
    db: Db,
    macro_zone: u64,
    distance: u16,
    t: u64,
    q: u8,
    r: u8,
)
    requires
        q < 7,
        r < 7,
        ({
            let z = packed::zone_coords(macro_zone);
            let hq = 7 * z.0 + q;
            let hr = 7 * z.1 + r;
            let d = distance as int;
            -d <= hq <= d && -d <= hr <= d && -d <= hq + hr <= d
        }),
        forall|i: int|
            0 <= i < db.cards.len() ==> !(history::prior_at(
                db.cards,
                (#[trigger] db.cards[i]).card_id,
                t,
            ) matches Some(c) && c.macro_zone == macro_zone && c.flags & e.state.dead == 0
                && on_cell(c, q, r)),
    ensures
        cards::is_free(e, db, macro_zone, distance, t, 7 * r + q),
{
    assert((7 * r + q) % 7 == q && (7 * r + q) / 7 == r as int);
}

// ---- plain edits ---------------------------------------------------
/// A card that is redefined is found so, and is otherwise as it was.
pub proof fn redefined_cards_are_found(e: Env, db: Db, id: u32, c: Card, packed_definition: u16)
    requires
        e.now_ms < packed::TIME_RADIX,
        history::distinct_versions(db.cards),
        history::prior_at(db.cards, id, e.now_ms) == Some(c),
    ensures
        ({
            let d = cards::edited(
                e,
                db,
                id,
                e.now_ms,
                |c: Card| cards::redefined(c, packed_definition),
            );
            history::prior_at(d.cards, id, e.now_ms) matches Some(n) && n.packed_definition
                == packed_definition && n.flags == c.flags && n.owner_id == c.owner_id
                && n.macro_zone == c.macro_zone && n.micro_location == c.micro_location && n.stock
                == c.stock
        }),
{
    let a = cards::redefined(c, packed_definition);
    history::prior_at_is_greatest(db.cards, id, e.now_ms);
    laws::write_reads_back(e, db, a, e.now_ms);
    assert(cards::after_write(e, db, a, e.now_ms) == cards::row_written(e, db, a, e.now_ms));
}

/// A card whose flags are replaced is found with them, and is otherwise as it was.
pub proof fn reflagged_cards_are_found(e: Env, db: Db, id: u32, c: Card, flags: u32)
    requires
        e.now_ms < packed::TIME_RADIX,
        history::distinct_versions(db.cards),
        history::prior_at(db.cards, id, e.now_ms) == Some(c),
        flags & e.state.dead == c.flags & e.state.dead,
    ensures
        ({
            let d = cards::edited(e, db, id, e.now_ms, |c: Card| cards::reflagged(c, flags));
            history::prior_at(d.cards, id, e.now_ms) matches Some(n) && n.flags == flags
                && n.packed_definition == c.packed_definition && n.owner_id == c.owner_id
                && n.macro_zone == c.macro_zone && n.stock == c.stock
        }),
{
    let a = cards::reflagged(c, flags);
    history::prior_at_is_greatest(db.cards, id, e.now_ms);
    laws::write_reads_back(e, db, a, e.now_ms);
    assert(cards::after_write(e, db, a, e.now_ms) == cards::row_written(e, db, a, e.now_ms));
}

/// Deleting the version of a card at a time takes the rows of that card that start then,
/// and no other row.
pub proof fn deleted_versions_are_gone(db: Db, id: u32, t: u64, row: Card)
    ensures
        cards::version_deleted(db, id, t).cards.contains(row) <==> db.cards.contains(row) && !(
        row.card_id == id && row.valid_at / 0x1_0000 == t),
{
    history::filter_members(db.cards, history::not_version::<Card>(id, t));
}

/// The souls that a player is counted for are those whose newest row is alive, a player's
/// soul by its definition, and that player's; each is counted once.
pub proof fn counted_souls_are_the_players(e: Env, rows: Seq<Card>, player_id: u32, id: u32)
    ensures
        cards::player_souls(e, rows, rows, player_id).no_duplicates(),
        cards::player_souls(e, rows, rows, player_id).contains(id) <==> (history::latest(
            rows,
            id,
        ) matches Some(c) && c.owner_id == player_id && c.packed_definition
            >= model::PLAYER_SOUL_FLOOR && c.flags & e.state.dead == 0),
{
    lemma_counted(e, rows, rows, player_id, id);
    history::prior_at_is_greatest(rows, id, u64::MAX);
    if let Some(c) = history::latest(rows, id) {
        let k = choose|k: int| 0 <= k < rows.len() && rows[k] == c;
        assert(rows[k].card_id == id);
    }
}

proof fn lemma_counted(e: Env, rows: Seq<Card>, prefix: Seq<Card>, player_id: u32, id: u32)
    ensures
        cards::player_souls(e, rows, prefix, player_id).no_duplicates(),
        cards::player_souls(e, rows, prefix, player_id).contains(id) <==> cards::is_players_soul(
            e,
            rows,
            id,
            player_id,
        ) && exists|k: int| 0 <= k < prefix.len() && (#[trigger] prefix[k]).card_id == id,
    decreases prefix.len(),
{
    if prefix.len() > 0 {
        let init = prefix.drop_last();
        lemma_counted(e, rows, init, player_id, id);
        lemma_counted(e, rows, init, player_id, prefix.last().card_id);
        let before = cards::player_souls(e, rows, init, player_id);
        let out = cards::player_souls(e, rows, prefix, player_id);
        assert(prefix[prefix.len() - 1] == prefix.last());
        assert(forall|k: int| 0 <= k < init.len() ==> init[k] == prefix[k]);
        assert(forall|k: int| 0 <= k < before.len() ==> out[k] == before[k]);
        if out.contains(id) {
            let k = choose|k: int| 0 <= k < out.len() && out[k] == id;
            if k < before.len() {
                assert(before[k] == id);
                let j = choose|j: int| 0 <= j < init.len() && (#[trigger] init[j]).card_id == id;
                assert(prefix[j].card_id == id);
            }
        }
        if cards::is_players_soul(e, rows, id, player_id) && exists|k: int|
            0 <= k < prefix.len() && (#[trigger] prefix[k]).card_id == id {
            let k = choose|k: int| 0 <= k < prefix.len() && (#[trigger] prefix[k]).card_id == id;
            if k < init.len() {
                assert(init[k].card_id == id);
            }
            if before.contains(id) {
                let j = choose|j: int| 0 <= j < before.len() && before[j] == id;
                assert(out[j] == id);
            } else {
                assert(out[out.len() - 1] == id);
            }
        }
    }
}

/// A view of a card shows the card as it is.
pub proof fn views_show_the_card(c: Card)
    ensures
        ({
            let v = place::view_of(c);
            &&& v.card_id == c.card_id && v.owner_id == c.owner_id
            &&& v.macro_zone == c.macro_zone && v.micro_location == c.micro_location
            &&& v.packed_definition == c.packed_definition && v.flags == c.flags && v.stock
                == c.stock
        }),
{
}

} // verus!
