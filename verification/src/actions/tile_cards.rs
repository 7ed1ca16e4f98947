//! Tile-cards beside the owner cards: promotion of a zone tile into a card, and
//! its stocks.
use vstd::prelude::*;

use crate::cards::cards;
use crate::cards::cards::Card;
use crate::cards::env::Env;
use crate::cards::micro::Micro;
use crate::history;
use crate::packed;
use crate::regions::cards as tiles;
use crate::regions::cards::TileError;
use crate::regions::zones;
use crate::tables::Db;
use crate::tables::Tables;
use crate::tile_words::Tile;

verus! {

/// `c` is a tile-card placed loose on the cell `(q, r)` of the zone at `location`.
pub open spec fn stands_on(e: Env, c: Card, location: u64, q: u8, r: u8) -> bool {
    &&& c.macro_zone == location
    &&& packed::card_type(c.packed_definition) == tiles::TILE_CARD_TYPE
    &&& cards::placement(e, c) matches Micro::Loose { local_q, local_r, .. } && local_q == q
        && local_r == r
}

/// The tile-card on a cell at `t`, among the cards with a row at the location.
pub open spec fn tile_card_at(
    e: Env,
    all: Seq<Card>,
    candidates: Seq<Card>,
    location: u64,
    q: u8,
    r: u8,
    t: u64,
) -> Option<Card>
    decreases candidates.len(),
{
    if candidates.len() == 0 {
        None
    } else {
        let row = candidates[0];
        let rest = tile_card_at(e, all, candidates.skip(1), location, q, r, t);
        if row.macro_zone != location {
            rest
        } else {
            match history::prior_at(all, row.card_id, t) {
                Some(c) => if stands_on(e, c, location, q, r) {
                    Some(c)
                } else {
                    rest
                },
                None => rest,
            }
        }
    }
}

pub open spec fn tile_card(e: Env, db: Db, location: u64, q: u8, r: u8, t: u64) -> Option<Card> {
    tile_card_at(e, db.cards, db.cards, location, q, r, t)
}

/// Find the promoted tile-card on a cell of the zone at `location`.
pub fn find_tile_card_at(e: &Env, tb: &Tables, location: u64, q: u8, r: u8, time_ms: u64) -> (found:
    Option<Card>)
    requires
        e.wf(),
    ensures
        found == tile_card(*e, tb@, location, q, r, time_ms),
{
    let mut i: usize = 0;
    assert(tb.cards@.skip(0) =~= tb.cards@);
    while i < tb.cards.len()
        invariant
            i <= tb.cards.len(),
            e.wf(),
            tile_card(*e, tb@, location, q, r, time_ms) == tile_card_at(
                *e,
                tb@.cards,
                tb.cards@.skip(i as int),
                location,
                q,
                r,
                time_ms,
            ),
        decreases tb.cards.len() - i,
    {
        let row = tb.cards[i];
        proof {
            assert(tb.cards@.skip(i as int)[0] == row);
            assert(tb.cards@.skip(i as int).skip(1) =~= tb.cards@.skip(i + 1));
        }
        if row.macro_zone == location {
            if let Some(c) = cards::prior_at(tb, row.card_id, time_ms) {
                let d: (u8, u16) = packed::unpack_definition(c.packed_definition);
                if d.0 == tiles::TILE_CARD_TYPE && c.macro_zone == location {
                    if let Micro::Loose { local_q, local_r, .. } = cards::micro_of(e, &c) {
                        if local_q == q && local_r == r {
                            return Some(c);
                        }
                    }
                }
            }
        }
        i = i + 1;
    }
    None
}

/// The zone tile on a cell, with its packed definition.
pub open spec fn zone_tile(db: Db, location: u64, q: u8, r: u8) -> Result<Tile, TileError> {
    match zones::latest_on(db.zones, location) {
        None => Err(TileError::NoZone { location }),
        Some(z) => if r >= 8 || q >= 8 {
            Err(TileError::OutOfRange { q, r })
        } else {
            let t = zones::tile_of(z, r as int, q as int);
            if t.0 == 0 {
                Err(TileError::Empty { q, r })
            } else {
                Ok((packed::definition_word(z.packed_definition / 16, t.0), t.1, t.2))
            }
        },
    }
}

fn read_zone_tile(tb: &Tables, location: u64, q: u8, r: u8) -> (t: Result<(Tile, u32), TileError>)
    ensures
        match t {
            Err(err) => zone_tile(tb@, location, q, r) == Err::<Tile, TileError>(err),
            Ok(found) => {
                &&& zone_tile(tb@, location, q, r) == Ok::<Tile, TileError>(found.0)
                &&& zones::latest_on(tb@.zones, location) is Some
                &&& zones::latest_on(tb@.zones, location)->0.owner_id == found.1
            },
        },
{
    match zones::latest_for(&tb.zones, location) {
        None => Err(TileError::NoZone { location }),
        Some(z) => match z.tile_at(r, q) {
            None => Err(TileError::OutOfRange { q, r }),
            Some(t) => {
                if t.0 == 0 {
                    return Err(TileError::Empty { q, r });
                }
                let card_type: u8 = packed::unpack_zone_definition(z.packed_definition);
                Ok(((packed::pack_definition(card_type, t.0), t.1, t.2), z.owner_id))
            },
        },
    }
}

/// A new tile-card for a tile.
pub open spec fn promoted(e: Env, db: Db, location: u64, q: u8, r: u8, owner_id: u32, tile: Tile) -> Card {
    cards::fresh_card(
        e,
        cards::next_id(db),
        location,
        Micro::Loose {
            local_q: q,
            local_r: r,
            x: 0,
            y: 0,
            kind: e.loose_kinds@[packed::surface(location) as int],
        },
        owner_id,
        tile.0,
        0,
        tiles::with_stock(e.bk, tiles::with_stock(e.bk, 0, 0, tile.1), 1, tile.2),
    )
}

/// Outcome of promoting the tile on a cell: the card that is there already, or a
/// new one that carries the zone tile.
pub open spec fn promotion(e: Env, db: Db, location: u64, q: u8, r: u8, t: u64) -> (
    Db,
    Result<Card, TileError>,
) {
    match tile_card(e, db, location, q, r, t) {
        Some(c) => (db, Ok(c)),
        None => match zone_tile(db, location, q, r) {
            Err(err) => (db, Err(err)),
            Ok(tile) => {
                let z = zones::latest_on(db.zones, location)->0;
                let c = promoted(e, db, location, q, r, z.owner_id, tile);
                let taken = cards::id_taken(db);
                (cards::after_write(e, taken, c, t), Ok(cards::stamped(e, taken, c, t)))
            },
        },
    }
}

/// Promote the tile on a cell, or find its tile-card.
pub fn find_or_create_tile_card(
    e: &Env,
    tb: &mut Tables,
    location: u64,
    q: u8,
    r: u8,
    time_ms: u64,
) -> (card: Result<Card, TileError>)
    requires
        e.wf(),
    ensures
        (final(tb)@, card) == promotion(*e, old(tb)@, location, q, r, time_ms),
{
    if let Some(c) = find_tile_card_at(e, tb, location, q, r, time_ms) {
        return Ok(c);
    }
    match read_zone_tile(tb, location, q, r) {
        Err(err) => Err(err),
        Ok(found) => {
            let s0: u32 = tiles::write_tile_stock(&e.bk, 0, 0, (found.0).1);
            let bk: u32 = tiles::write_tile_stock(&e.bk, s0, 1, (found.0).2);
            let card_id: u32 = cards::next_card_id(tb);
            let kind: u8 = e.loose_kind_for_surface(packed::surface_of(location));
            Ok(
                cards::create_at(
                    e,
                    tb,
                    card_id,
                    time_ms,
                    location,
                    Micro::snap(q, r, kind),
                    found.1,
                    (found.0).0,
                    0,
                    bk,
                ),
            )
        },
    }
}

/// A tile-card with one stock replaced.
pub open spec fn restocked(e: Env, slot: int, value: u8) -> spec_fn(Card) -> Card {
    |c: Card| Card { flags_bk: tiles::with_stock(e.bk, c.flags_bk, slot, value), ..c }
}

/// Set one stock of a tile-card at `time_ms`.
pub fn set_tile_stock(
    e: &Env,
    tb: &mut Tables,
    card_id: u32,
    time_ms: u64,
    slot: usize,
    value: u8,
)
    requires
        e.wf(),
    ensures
        final(tb)@ == cards::edited(
            *e,
            old(tb)@,
            card_id,
            time_ms,
            restocked(*e, slot as int, value),
        ),
{
    if let Some(c) = cards::prior_at(tb, card_id, time_ms) {
        let flags_bk: u32 = tiles::write_tile_stock(&e.bk, c.flags_bk, slot, value);
        let _ = cards::write_at(e, tb, Card { flags_bk, ..c }, time_ms);
    }
}

/// The tile on a cell as a reader sees it: a tile-card takes priority over the
/// zone.
pub open spec fn tile_view(e: Env, db: Db, location: u64, q: u8, r: u8, t: u64) -> Option<Tile> {
    match tile_card(e, db, location, q, r, t) {
        Some(c) => Some(
            (
                c.packed_definition,
                tiles::stock_value(e.bk, c.flags_bk, 0),
                tiles::stock_value(e.bk, c.flags_bk, 1),
            ),
        ),
        None => match zone_tile(db, location, q, r) {
            Ok(tile) => Some(tile),
            Err(_) => None,
        },
    }
}

/// Read the tile on a cell: packed definition and stocks.
pub fn tile_full_view(e: &Env, tb: &Tables, location: u64, q: u8, r: u8, time_ms: u64) -> (v: Option<
    Tile,
>)
    requires
        e.wf(),
    ensures
        v == tile_view(*e, tb@, location, q, r, time_ms),
{
    if let Some(c) = find_tile_card_at(e, tb, location, q, r, time_ms) {
        return Some(
            (
                c.packed_definition,
                tiles::tile_stock(&e.bk, c.flags_bk, 0),
                tiles::tile_stock(&e.bk, c.flags_bk, 1),
            ),
        );
    }
    match read_zone_tile(tb, location, q, r) {
        Err(_) => None,
        Ok(found) => Some(found.0),
    }
}

} // verus!
