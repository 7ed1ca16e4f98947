//! Tile-cards of a data shard: zone tiles promoted to cards.
use vstd::prelude::*;

use crate::history;
use crate::packed;
use crate::regions::cards::TileError;
use crate::regions::zones;
use crate::shard::cards;
use crate::shard::cards::Card;
use crate::shard::model;
use crate::shard::model::HoldField;
use crate::shard::model::Micro;
use crate::shard::tables::Db;
use crate::shard::tables::Env;
use crate::shard::tables::Tables;
use crate::tile_words::Tile;

verus! {

/// Card type of tile-cards.
pub const TILE_CARD_TYPE: u8 = 7;

/// The card is a tile-card that stands loose on a cell of the zone at `location`.
pub open spec fn stands_on(c: Card, location: u64, q: u8, r: u8) -> bool {
    &&& c.macro_zone == location
    &&& packed::card_type(c.packed_definition) == TILE_CARD_TYPE
    &&& cards::placement(c) matches Micro::Loose { local_q, local_r, .. } && local_q == q && local_r
        == r
}

/// The tile-card on a cell at `t`: the first card with a row at the location
/// whose version in force then stands on the cell.
pub open spec fn tile_card_at(
    cards: Seq<Card>,
    candidates: Seq<Card>,
    location: u64,
    q: u8,
    r: u8,
    t: u64,
) -> Option<Card>
    decreases candidates.len(),
{
    if candidates.len() == 0 {
        None
    } else {
        let row = candidates[0];
        match history::prior_at(cards, row.card_id, t) {
            Some(c) if row.macro_zone == location && stands_on(c, location, q, r) => Some(c),
            _ => tile_card_at(cards, candidates.skip(1), location, q, r, t),
        }
    }
}

pub open spec fn tile_card(db: Db, surface: u8, macro_zone: u64, q: u8, r: u8, t: u64) -> Option<Card> {
    tile_card_at(db.cards, db.cards, packed::on_surface(macro_zone, surface), q, r, t)
}

/// Find the promoted tile-card on a cell.
pub fn find_tile_card_at(
    tb: &Tables,
    surface: u8,
    macro_zone: u64,
    q: u8,
    r: u8,
    time_ms: u64,
) -> (found: Option<Card>)
    ensures
        found == tile_card(tb@, surface, macro_zone, q, r, time_ms),
{
    let location: u64 = packed::with_surface(macro_zone, surface);
    let mut i: usize = 0;
    assert(tb.cards@.skip(0) =~= tb.cards@);
    while i < tb.cards.len()
        invariant
            i <= tb.cards.len(),
            location == packed::on_surface(macro_zone, surface),
            tile_card(tb@, surface, macro_zone, q, r, time_ms) == tile_card_at(
                tb@.cards,
                tb.cards@.skip(i as int),
                location,
                q,
                r,
                time_ms,
            ),
        decreases tb.cards.len() - i,
    {
        let row = tb.cards[i];
        proof {
            assert(tb.cards@.skip(i as int)[0] == row);
            assert(tb.cards@.skip(i as int).skip(1) =~= tb.cards@.skip(i + 1));
        }
        if row.macro_zone == location {
            if let Some(c) = cards::prior_at(tb, row.card_id, time_ms) {
                let d: (u8, u16) = packed::unpack_definition(c.packed_definition);
                if d.0 == TILE_CARD_TYPE && c.macro_zone == location {
                    if let Micro::Loose { local_q, local_r, .. } = cards::micro_of(&c) {
                        if local_q == q && local_r == r {
                            return Some(c);
                        }
                    }
                }
            }
        }
        i = i + 1;
    }
    None
}

/// The zone tile on a cell, with its packed definition.
pub open spec fn zone_tile(db: Db, location: u64, q: u8, r: u8) -> Result<Tile, TileError> {
    match zones::latest_on(db.zones, location) {
        None => Err(TileError::NoZone { location }),
        Some(z) => if r >= 8 || q >= 8 {
            Err(TileError::OutOfRange { q, r })
        } else {
            let t = zones::tile_of(z, r as int, q as int);
            if t.0 == 0 {
                Err(TileError::Empty { q, r })
            } else {
                Ok((packed::definition_word(z.packed_definition / 16, t.0), t.1, t.2))
            }
        },
    }
}

fn read_zone_tile(tb: &Tables, location: u64, q: u8, r: u8) -> (t: Result<(Tile, u32), TileError>)
    ensures
        match t {
            Err(err) => zone_tile(tb@, location, q, r) == Err::<Tile, TileError>(err),
            Ok(found) => {
                &&& zone_tile(tb@, location, q, r) == Ok::<Tile, TileError>(found.0)
                &&& zones::latest_on(tb@.zones, location) is Some
                &&& zones::latest_on(tb@.zones, location)->0.owner_id == found.1
            },
        },
{
    match zones::latest_for(&tb.zones, location) {
        None => Err(TileError::NoZone { location }),
        Some(z) => match z.tile_at(r, q) {
            None => Err(TileError::OutOfRange { q, r }),
            Some(t) => {
                if t.0 == 0 {
                    return Err(TileError::Empty { q, r });
                }
                let card_type: u8 = packed::unpack_zone_definition(z.packed_definition);
                Ok(((packed::pack_definition(card_type, t.0), t.1, t.2), z.owner_id))
            },
        },
    }
}

/// A new tile-card for the tile on a cell.
pub open spec fn promoted(db: Db, location: u64, q: u8, r: u8, owner_id: u32, tile: Tile) -> Card {
    cards::fresh_card(
        cards::next_id(db),
        location,
        Micro::Loose { local_q: q, local_r: r, x: 0, y: 0 },
        owner_id,
        tile.0,
        0,
        model::with_stock(model::with_stock(0, 0, tile.1), 1, tile.2),
    )
}

/// Outcome of promoting the tile on a cell: the card that is there already, or a
/// new one that carries the zone tile.
pub open spec fn promotion(e: Env, db: Db, surface: u8, macro_zone: u64, q: u8, r: u8, t: u64) -> (
    Db,
    Result<Card, TileError>,
) {
    let location = packed::on_surface(macro_zone, surface);
    match tile_card(db, surface, macro_zone, q, r, t) {
        Some(c) => (db, Ok(c)),
        None => match zone_tile(db, location, q, r) {
            Err(err) => (db, Err(err)),
            Ok(tile) => {
                let z = zones::latest_on(db.zones, location)->0;
                let c = promoted(db, location, q, r, z.owner_id, tile);
                let taken = cards::id_taken(db);
                (cards::after_write(e, taken, c, t), Ok(cards::stamped(e, taken, c, t)))
            },
        },
    }
}

/// Promote the tile on a cell, or find its tile-card.
pub fn find_or_create_tile_card(
    e: &Env,
    tb: &mut Tables,
    surface: u8,
    macro_zone: u64,
    q: u8,
    r: u8,
    time_ms: u64,
) -> (card: Result<Card, TileError>)
    ensures
        (final(tb)@, card) == promotion(*e, old(tb)@, surface, macro_zone, q, r, time_ms),
{
    if let Some(c) = find_tile_card_at(tb, surface, macro_zone, q, r, time_ms) {
        return Ok(c);
    }
    let location: u64 = packed::with_surface(macro_zone, surface);
    match read_zone_tile(tb, location, q, r) {
        Err(err) => Err(err),
        Ok(found) => {
            let s0: u64 = model::write_stock(0, 0, (found.0).1);
            let stock: u64 = model::write_stock(s0, 1, (found.0).2);
            let card_id: u32 = cards::next_card_id(tb);
            Ok(
                cards::create_at(
                    e,
                    tb,
                    card_id,
                    time_ms,
                    location,
                    Micro::snap(q, r),
                    found.1,
                    (found.0).0,
                    0,
                    stock,
                ),
            )
        },
    }
}

/// A tile-card with one stock replaced.
pub open spec fn restocked(slot: int, value: u8) -> spec_fn(Card) -> Card {
    |c: Card| Card { stock: model::with_stock(c.stock, slot, value), ..c }
}

/// Set one stock of a tile-card at `time_ms`.
pub fn set_tile_stock(
    e: &Env,
    tb: &mut Tables,
    card_id: u32,
    time_ms: u64,
    slot: usize,
    value: u8,
) -> (row: Option<Card>)
    ensures
        final(tb)@ == cards::edited(
            *e,
            old(tb)@,
            card_id,
            time_ms,
            restocked(slot as int, value),
        ),
        row == match history::prior_at(old(tb)@.cards, card_id, time_ms) {
            None => None,
            Some(c) => Some(
                cards::stamped(*e, old(tb)@, restocked(slot as int, value)(c), time_ms),
            ),
        },
{
    match cards::prior_at(tb, card_id, time_ms) {
        None => None,
        Some(c) => {
            let stock: u64 = model::write_stock(c.stock, slot, value);
            Some(cards::write_at(e, tb, Card { stock, ..c }, time_ms))
        },
    }
}

/// Outcome of taking a hold on the tile on a cell: it is promoted first, and a
/// second exclusive hold is refused.
pub open spec fn hold_acquired(
    e: Env,
    db: Db,
    surface: u8,
    macro_zone: u64,
    q: u8,
    r: u8,
    field: HoldField,
    t: u64,
) -> (Db, Result<(), TileError>) {
    let p = promotion(e, db, surface, macro_zone, q, r, t);
    match p.1 {
        Err(err) => (p.0, Err(err)),
        Ok(c) => if field == HoldField::SlotClaim && model::hold_value(e.layout, c.flags, field)
            > 0 {
            (p.0, Err(TileError::AlreadyHeld { q, r }))
        } else {
            (cards::held(e, p.0, c.card_id, t, field, true), Ok(()))
        },
    }
}

/// Take one reference of a hold on the tile on a cell, promoting it first.
pub fn acquire_tile_hold(
    e: &Env,
    tb: &mut Tables,
    surface: u8,
    macro_zone: u64,
    q: u8,
    r: u8,
    field: HoldField,
    time_ms: u64,
) -> (done: Result<(), TileError>)
    requires
        e.wf(),
    ensures
        (final(tb)@, done) == hold_acquired(
            *e,
            old(tb)@,
            surface,
            macro_zone,
            q,
            r,
            field,
            time_ms,
        ),
{
    let tile = match find_or_create_tile_card(e, tb, surface, macro_zone, q, r, time_ms) {
        Err(err) => {
            return Err(err);
        },
        Ok(c) => c,
    };
    if field == HoldField::SlotClaim && model::hold_count(&e.layout, tile.flags, field) > 0 {
        return Err(TileError::AlreadyHeld { q, r });
    }
    cards::acquire_hold(e, tb, tile.card_id, time_ms, field);
    Ok(())
}

/// `db` after giving one reference of a hold back, if the cell has a tile-card.
pub open spec fn hold_released(
    e: Env,
    db: Db,
    surface: u8,
    macro_zone: u64,
    q: u8,
    r: u8,
    field: HoldField,
    t: u64,
) -> Db {
    match tile_card(db, surface, macro_zone, q, r, t) {
        None => db,
        Some(c) => cards::held(e, db, c.card_id, t, field, false),
    }
}

/// Give one reference of a hold back, if the cell has a tile-card.
pub fn release_tile_hold(
    e: &Env,
    tb: &mut Tables,
    surface: u8,
    macro_zone: u64,
    q: u8,
    r: u8,
    field: HoldField,
    time_ms: u64,
)
    requires
        e.wf(),
    ensures
        final(tb)@ == hold_released(*e, old(tb)@, surface, macro_zone, q, r, field, time_ms),
{
    if let Some(c) = find_tile_card_at(tb, surface, macro_zone, q, r, time_ms) {
        cards::release_hold(e, tb, c.card_id, time_ms, field);
    }
}

/// The tile on a cell as a reader sees it: a tile-card takes priority over the
/// zone.
pub open spec fn tile_view(db: Db, surface: u8, macro_zone: u64, q: u8, r: u8, t: u64) -> Option<Tile> {
    match tile_card(db, surface, macro_zone, q, r, t) {
        Some(c) => Some(
            (c.packed_definition, model::stock_value(c.stock, 0), model::stock_value(c.stock, 1)),
        ),
        None => match zone_tile(db, packed::on_surface(macro_zone, surface), q, r) {
            Ok(tile) => Some(tile),
            Err(_) => None,
        },
    }
}

/// Read the tile on a cell: packed definition and stocks.
pub fn tile_full_view(
    tb: &Tables,
    surface: u8,
    macro_zone: u64,
    q: u8,
    r: u8,
    time_ms: u64,
) -> (v: Option<Tile>)
    ensures
        v == tile_view(tb@, surface, macro_zone, q, r, time_ms),
{
    if let Some(c) = find_tile_card_at(tb, surface, macro_zone, q, r, time_ms) {
        return Some((c.packed_definition, model::stock(c.stock, 0), model::stock(c.stock, 1)));
    }
    match read_zone_tile(tb, packed::with_surface(macro_zone, surface), q, r) {
        Err(_) => None,
        Ok(found) => Some(found.0),
    }
}

// ---- laws ----------------------------------------------------------
/// Looking through rows of other cards first, then a row that stands on the cell.
proof fn lemma_found_at_the_end(
    cards0: Seq<Card>,
    row: Card,
    candidates: Seq<Card>,
    location: u64,
    q: u8,
    r: u8,
    t: u64,
)
    requires
        tile_card_at(cards0, candidates, location, q, r, t) is None,
        forall|i: int|
            0 <= i < candidates.len() ==> (#[trigger] candidates[i]).card_id != row.card_id,
        row.macro_zone == location,
        history::time(row) <= t,
        stands_on(row, location, q, r),
        history::prior_at(cards0, row.card_id, t) is None,
    ensures
        tile_card_at(cards0.push(row), candidates.push(row), location, q, r, t) == Some(row),
    decreases candidates.len(),
{
    let rows = cards0.push(row);
    assert(rows.drop_last() =~= cards0);
    let all = candidates.push(row);
    if candidates.len() > 0 {
        let rest = candidates.skip(1);
        assert(all.skip(1) =~= rest.push(row));
        assert forall|i: int| 0 <= i < rest.len() implies (#[trigger] rest[i]).card_id
            != row.card_id by {
            assert(rest[i] == candidates[i + 1]);
        }
        lemma_found_at_the_end(cards0, row, rest, location, q, r, t);
        assert(all[0] == candidates[0]);
        assert(history::prior_at(rows, all[0].card_id, t) == history::prior_at(
            cards0,
            all[0].card_id,
            t,
        ));
    } else {
        assert(all[0] == row);
    }
}

/// Promoting the tile on a cell twice is promoting it once: the second time finds
/// the tile-card. The cell lies in a tile zone, and the new card's id and key are
/// unused.
pub proof fn promotion_is_idempotent(
    e: Env,
    db: Db,
    surface: u8,
    macro_zone: u64,
    q: u8,
    r: u8,
    t: u64,
)
    requires
        t < packed::TIME_RADIX,
        promotion(e, db, surface, macro_zone, q, r, t).1 is Ok,
        zones::latest_on(db.zones, packed::on_surface(macro_zone, surface)) matches Some(z) ==> z.packed_definition
            / 16 == TILE_CARD_TYPE,
        forall|i: int|
            0 <= i < db.cards.len() ==> (#[trigger] db.cards[i]).card_id != cards::next_id(db),
        history::key_free(db.cards, packed::valid_at_key(t, db.next_sequence)),
    ensures
        ({
            let once = promotion(e, db, surface, macro_zone, q, r, t);
            promotion(e, once.0, surface, macro_zone, q, r, t) == once
        }),
{
    let location = packed::on_surface(macro_zone, surface);
    if tile_card(db, surface, macro_zone, q, r, t) is None {
        let tile = zone_tile(db, location, q, r)->Ok_0;
        let z = zones::latest_on(db.zones, location)->0;
        let taken = cards::id_taken(db);
        let c = promoted(db, location, q, r, z.owner_id, tile);
        let row = cards::stamped(e, taken, c, t);
        history::prior_at_is_greatest(db.cards, c.card_id, t);
        if let Some(p) = history::prior_at(db.cards, c.card_id, t) {
            let k = choose|k: int| 0 <= k < db.cards.len() && db.cards[k] == p;
            assert(db.cards[k].card_id != c.card_id);
        }
        packed::valid_at_round_trip(t, db.next_sequence);
        model::placement_round_trip(Micro::Loose { local_q: q, local_r: r, x: 0, y: 0 }, 0);
        let dead = e.state.dead;
        assert(0u32 & dead == 0) by (bit_vector);
        history::store_appends(db.cards, row, t);
        let once = cards::after_write(e, taken, c, t);
        assert(once.cards == db.cards.push(row));
        assert(stands_on(row, location, q, r));
        lemma_found_at_the_end(db.cards, row, db.cards, location, q, r, t);
    }
}

} // verus!
