//! Gate-facing tile writes of the positional database.
use vstd::prelude::*;

use crate::history;
use crate::regions::cards;
use crate::regions::cards::TileError;
use crate::regions::tables::Db;
use crate::regions::tables::Env;
use crate::regions::tables::Tables;
use crate::regions::zones;

verus! {

/// The stock operations of a tile effect.
pub const STOCK_SUB: u8 = 0;

pub const STOCK_ADD: u8 = 1;

pub const STOCK_SET: u8 = 2;

/// The stock after an operation, within `0..=3`; `None` for an unknown operation.
pub open spec fn stock_after(current: u8, op: u8, delta: u8) -> Option<u8> {
    if op == STOCK_SUB {
        Some(
            if current > delta {
                (current - delta) as u8
            } else {
                0
            },
        )
    } else if op == STOCK_ADD {
        Some(
            if current + delta > 3 {
                3
            } else {
                (current + delta) as u8
            },
        )
    } else if op == STOCK_SET {
        Some(
            if delta > 3 {
                3
            } else {
                delta
            },
        )
    } else {
        None
    }
}

/// Compute the stock after an operation.
pub fn apply_stock_op(current: u8, op: u8, delta: u8) -> (next: Option<u8>)
    ensures
        next == stock_after(current, op, delta),
{
    if op == STOCK_SUB {
        Some(
            if current > delta {
                current - delta
            } else {
                0
            },
        )
    } else if op == STOCK_ADD {
        Some(
            if current as u16 + delta as u16 > 3 {
                3
            } else {
                current + delta
            },
        )
    } else if op == STOCK_SET {
        Some(
            if delta > 3 {
                3
            } else {
                delta
            },
        )
    } else {
        None
    }
}

/// A stock in range stays in range.
pub proof fn stock_stays_in_range(current: u8, op: u8, delta: u8)
    requires
        current <= 3,
    ensures
        stock_after(current, op, delta) matches Some(n) ==> n <= 3,
        stock_after(current, op, delta) is Some <==> op <= STOCK_SET,
{
}

/// Outcome of a tile-stock effect. On any error the whole request is undone.
pub open spec fn stock_modified(
    e: Env,
    db: Db,
    t: u64,
    surface: u8,
    macro_zone: u64,
    q: u8,
    r: u8,
    slot: u8,
    op: u8,
    delta: u8,
) -> (Db, Result<(), TileError>) {
    let p = cards::promotion(e, db, surface, macro_zone, q, r, t);
    match p.1 {
        Err(err) => (db, Err(err)),
        Ok(tile) => match stock_after(
            cards::stock_value(e.bk, tile.flags_bk, slot as int),
            op,
            delta,
        ) {
            None => (db, Err(TileError::UnknownOp { op })),
            Some(next) => match history::prior_at(p.0.cards, tile.card_id, t) {
                None => (p.0, Ok(())),
                Some(c) => (
                    cards::card_written(p.0, cards::restocked(e, c, slot as int, next), t),
                    Ok(()),
                ),
            },
        },
    }
}

/// Apply a recipe's tile-stock effect: promote the tile on a cell, then change
/// one of its stocks.
pub fn modify_tile_stock(
    e: &Env,
    tb: &mut Tables,
    time_ms: u64,
    surface: u8,
    macro_zone: u64,
    q: u8,
    r: u8,
    slot: u8,
    op: u8,
    delta: u8,
) -> (res: Result<(), TileError>)
    requires
        e.bk.wf(),
    ensures
        (final(tb)@, res) == stock_modified(
            *e,
            old(tb)@,
            time_ms,
            surface,
            macro_zone,
            q,
            r,
            slot,
            op,
            delta,
        ),
{
    if op > STOCK_SET {
        // Nothing may be written for an unknown operation, so the cell is only read.
        if cards::find_tile_card_at(e, tb, surface, macro_zone, q, r, time_ms).is_some() {
            return Err(TileError::UnknownOp { op });
        }
        return match cards::read_zone_tile(
            tb,
            crate::packed::with_surface(macro_zone, surface),
            q,
            r,
        ) {
            Err(err) => Err(err),
            Ok(_) => Err(TileError::UnknownOp { op }),
        };
    }
    let tile = match cards::find_or_create_tile_card(e, tb, surface, macro_zone, q, r, time_ms) {
        Err(err) => {
            return Err(err);
        },
        Ok(c) => c,
    };
    let current: u8 = cards::tile_stock(&e.bk, tile.flags_bk, slot as usize);
    match apply_stock_op(current, op, delta) {
        None => Err(TileError::UnknownOp { op }),
        Some(next) => {
            let _ = cards::set_tile_stock(e, tb, tile.card_id, time_ms, slot as usize, next);
            Ok(())
        },
    }
}

/// Set a tile of a zone at `time_ms`.
pub fn set_tile(
    tb: &mut Tables,
    zone_id: u32,
    time_ms: u64,
    row: u8,
    col: u8,
    def_id: u16,
    stock0: u8,
    stock1: u8,
) -> (res: Result<(), TileError>)
    ensures
        ({
            let w = zones::tile_written(
                old(tb)@.zone_state(),
                zone_id,
                time_ms,
                row,
                col,
                (def_id, stock0, stock1),
            );
            &&& final(tb)@ == old(tb)@.with_zone_state(w.0)
            &&& res == match w.1 {
                Some(_) => Ok::<(), TileError>(()),
                None => Err::<(), TileError>(TileError::NoTile { zone_id }),
            }
        }),
{
    let r = zones::set_tile_at(
        &mut tb.zones,
        &mut tb.next_sequence,
        zone_id,
        time_ms,
        row,
        col,
        def_id,
        stock0,
        stock1,
    );
    match r {
        Some(_) => Ok(()),
        None => Err(TileError::NoTile { zone_id }),
    }
}

} // verus!
