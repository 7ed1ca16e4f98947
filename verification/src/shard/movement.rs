//! Moving souls over the world, one tile at a time.
//!
//! A step is stored at the time of arrival: until then the soul stands on the
//! tile it comes from.
use vstd::prelude::*;

use crate::history;
use crate::packed;
use crate::regions::zones;
use crate::shard::cards;
use crate::shard::cards::Card;
use crate::shard::model;
use crate::shard::model::HoldField;
use crate::shard::model::Micro;
use crate::shard::tables::Db;
use crate::shard::tables::Env;
use crate::shard::tables::Tables;
use crate::time;
use crate::time::TimeDrift;

verus! {

/// The destination of one step.
#[derive(Clone, Copy, Debug, PartialEq, Eq, Structural)]
pub struct TilePoint {
    pub surface: u8,
    pub macro_zone: u64,
    pub micro_location: u32,
}

/// The longest that one step may take.
pub const MAX_STEP_MS: u64 = 60_000;

/// Why a step is refused.
#[derive(Clone, Copy, Debug, PartialEq, Eq, Structural)]
pub enum MoveError {
    Time(TimeDrift),
    SoulMissing { soul_id: u32 },
    /// The owner chain of the soul is broken.
    OwnerUnknown { soul_id: u32 },
    NotOwned { soul_id: u32, owner: u32 },
    Held { soul_id: u32 },
    WrongDefinition { actual: u16, claimed: u16 },
    /// The soul has no row at the departure.
    NoDeparture { depart_ms: u64 },
    /// At the departure the soul is not loose on the world.
    NotOnWorld { soul_id: u32 },
    /// At the departure the soul stands elsewhere.
    WrongOrigin { actual_q: i32, actual_r: i32 },
    BadDestination,
    NotAdjacent { dest_q: i32, dest_r: i32 },
    ArrivalNotAfter { depart_ms: u64, arrival_ms: u64 },
    StepTooLong { ms: u64 },
    Stale { depart_ms: u64, now_ms: u64 },
}

/// The world hex of a loose card on the world surface.
pub open spec fn world_hex(macro_zone: u64, micro_location: u32, flags: u32) -> Option<(i32, i32)> {
    if packed::surface(macro_zone) != packed::WORLD_LAYER {
        None
    } else {
        match model::decoded(micro_location, flags) {
            Micro::Loose { local_q, local_r, x, y } => {
                let c = packed::zone_coords(macro_zone);
                Some(
                    (
                        packed::tile_coord(c.0, local_q) as i32,
                        packed::tile_coord(c.1, local_r) as i32,
                    ),
                )
            },
            Micro::Stacked { root, branch, index } => None,
        }
    }
}

/// The world hex of a placement, where it is loose on the world surface.
pub fn world_cell(macro_zone: u64, micro_location: u32, flags: u32) -> (cell: Option<(i32, i32)>)
    ensures
        cell == world_hex(macro_zone, micro_location, flags),
        cell matches Some(c) ==> -0x10_0000 <= c.0 <= 0x10_0000 && -0x10_0000 <= c.1 <= 0x10_0000,
{
    if packed::surface_of(macro_zone) != packed::WORLD_LAYER {
        return None;
    }
    let c: (i32, i32) = packed::unpack_macro_zone(macro_zone);
    match Micro::of(micro_location, flags) {
        Micro::Loose { local_q, local_r, .. } => Some(
            (packed::world_tile(c.0, local_q), packed::world_tile(c.1, local_r)),
        ),
        Micro::Stacked { .. } => None,
    }
}

/// One of the six axial neighbours.
pub open spec fn adjacent(a: (i32, i32), b: (i32, i32)) -> bool {
    let dq = b.0 - a.0;
    let dr = b.1 - a.1;
    ||| dq == 1 && dr == 0
    ||| dq == -1 && dr == 0
    ||| dq == 0 && dr == 1
    ||| dq == 0 && dr == -1
    ||| dq == 1 && dr == -1
    ||| dq == -1 && dr == 1
}

/// Axial-hex adjacency.
pub fn hex_adjacent(a: (i32, i32), b: (i32, i32)) -> (r: bool)
    ensures
        r == adjacent(a, b),
{
    let dq: i64 = b.0 as i64 - a.0 as i64;
    let dr: i64 = b.1 as i64 - a.1 as i64;
    (dq == 1 && dr == 0) || (dq == -1 && dr == 0) || (dq == 0 && dr == 1) || (dq == 0 && dr == -1)
        || (dq == 1 && dr == -1) || (dq == -1 && dr == 1)
}

/// Two hexes are adjacent exactly when they are one apart.
pub proof fn adjacent_is_one_apart(a: (i32, i32), b: (i32, i32))
    ensures
        adjacent(a, b) <==> zones::hex_len(b.0 - a.0, b.1 - a.1) == 1,
        adjacent(a, b) == adjacent(b, a),
{
}

/// An action in flight holds the soul.
pub open spec fn is_held(e: Env, c: Card) -> bool {
    ||| model::hold_value(e.layout, c.flags, HoldField::SlotClaim) > 0
    ||| model::hold_value(e.layout, c.flags, HoldField::SlotBorrow) > 0
    ||| model::hold_value(e.layout, c.flags, HoldField::PositionHold) > 0
}

/// Why a soul may not be moved by the caller at `t`.
pub open spec fn soul_refusal(e: Env, db: Db, caller: u32, soul_id: u32, soul_def: u16, t: u64) -> Option<
    MoveError,
> {
    match history::prior_at(db.cards, soul_id, t) {
        None => Some(MoveError::SoulMissing { soul_id }),
        Some(soul) => match cards::player_of(e, db, soul_id) {
            None => Some(MoveError::OwnerUnknown { soul_id }),
            Some(owner) => if owner != caller {
                Some(MoveError::NotOwned { soul_id, owner })
            } else if is_held(e, soul) {
                Some(MoveError::Held { soul_id })
            } else if soul.packed_definition != soul_def {
                Some(
                    MoveError::WrongDefinition { actual: soul.packed_definition, claimed: soul_def },
                )
            } else {
                None
            },
        },
    }
}

/// Why a step from a hex to a destination is refused.
pub open spec fn step_refusal(
    db: Db,
    soul_id: u32,
    from: (i32, i32),
    dest: TilePoint,
    depart_ms: u64,
    arrival_ms: u64,
    now_ms: u64,
) -> Option<MoveError> {
    match history::prior_at(db.cards, soul_id, depart_ms) {
        None => Some(MoveError::NoDeparture { depart_ms }),
        Some(row) => match world_hex(row.macro_zone, row.micro_location, row.flags) {
            None => Some(MoveError::NotOnWorld { soul_id }),
            Some(actual) => if actual != from {
                Some(MoveError::WrongOrigin { actual_q: actual.0, actual_r: actual.1 })
            } else {
                match world_hex(
                    packed::on_surface(dest.macro_zone, dest.surface),
                    dest.micro_location,
                    0,
                ) {
                    None => Some(MoveError::BadDestination),
                    Some(cell) => if !adjacent(from, cell) {
                        Some(MoveError::NotAdjacent { dest_q: cell.0, dest_r: cell.1 })
                    } else if arrival_ms <= depart_ms {
                        Some(MoveError::ArrivalNotAfter { depart_ms, arrival_ms })
                    } else if arrival_ms - depart_ms > MAX_STEP_MS {
                        Some(MoveError::StepTooLong { ms: (arrival_ms - depart_ms) as u64 })
                    } else if depart_ms + MAX_STEP_MS < now_ms {
                        Some(MoveError::Stale { depart_ms, now_ms })
                    } else {
                        None
                    },
                }
            },
        },
    }
}

fn check_soul(e: &Env, tb: &Tables, caller: u32, soul_id: u32, soul_def: u16, now_ms: u64) -> (err: Option<
    MoveError,
>)
    requires
        e.wf(),
    ensures
        err == soul_refusal(*e, tb@, caller, soul_id, soul_def, now_ms),
{
    let soul: Card = match cards::prior_at(tb, soul_id, now_ms) {
        None => {
            return Some(MoveError::SoulMissing { soul_id });
        },
        Some(c) => c,
    };
    let owner: u32 = match cards::owning_player(e, tb, soul_id) {
        None => {
            return Some(MoveError::OwnerUnknown { soul_id });
        },
        Some(p) => p,
    };
    if owner != caller {
        return Some(MoveError::NotOwned { soul_id, owner });
    }
    if cards::slot_claim_count(e, soul.flags) > 0 || cards::slot_borrow_count(e, soul.flags) > 0
        || cards::position_hold_count(e, soul.flags) > 0 {
        return Some(MoveError::Held { soul_id });
    }
    if soul.packed_definition != soul_def {
        return Some(
            MoveError::WrongDefinition { actual: soul.packed_definition, claimed: soul_def },
        );
    }
    None
}

fn check_step(
    tb: &Tables,
    soul_id: u32,
    from: (i32, i32),
    dest: &TilePoint,
    depart_ms: u64,
    arrival_ms: u64,
    now_ms: u64,
) -> (err: Option<MoveError>)
    ensures
        err == step_refusal(tb@, soul_id, from, *dest, depart_ms, arrival_ms, now_ms),
{
    let row: Card = match cards::prior_at(tb, soul_id, depart_ms) {
        None => {
            return Some(MoveError::NoDeparture { depart_ms });
        },
        Some(c) => c,
    };
    let actual: (i32, i32) = match world_cell(row.macro_zone, row.micro_location, row.flags) {
        None => {
            return Some(MoveError::NotOnWorld { soul_id });
        },
        Some(c) => c,
    };
    if actual.0 != from.0 || actual.1 != from.1 {
        return Some(MoveError::WrongOrigin { actual_q: actual.0, actual_r: actual.1 });
    }
    let location: u64 = packed::with_surface(dest.macro_zone, dest.surface);
    let cell: (i32, i32) = match world_cell(location, dest.micro_location, 0) {
        None => {
            return Some(MoveError::BadDestination);
        },
        Some(c) => c,
    };
    if !hex_adjacent(from, cell) {
        return Some(MoveError::NotAdjacent { dest_q: cell.0, dest_r: cell.1 });
    }
    if arrival_ms <= depart_ms {
        return Some(MoveError::ArrivalNotAfter { depart_ms, arrival_ms });
    }
    if arrival_ms - depart_ms > MAX_STEP_MS {
        return Some(MoveError::StepTooLong { ms: arrival_ms - depart_ms });
    }
    if now_ms > MAX_STEP_MS && depart_ms < now_ms - MAX_STEP_MS {
        return Some(MoveError::Stale { depart_ms, now_ms });
    }
    None
}

/// A soul that has arrived.
pub open spec fn arrived(dest: TilePoint) -> spec_fn(Card) -> Card {
    |c: Card|
        Card {
            macro_zone: packed::on_surface(dest.macro_zone, dest.surface),
            micro_location: dest.micro_location,
            ..c
        }
}

/// Outcome of a step.
pub open spec fn soul_moved(
    e: Env,
    db: Db,
    client_time_ms: u64,
    caller: u32,
    soul_id: u32,
    soul_def: u16,
    from: (i32, i32),
    dest: TilePoint,
    depart_ms: u64,
    arrival_ms: u64,
) -> (Db, Result<(), MoveError>) {
    match time::resolved(e.now_ms, client_time_ms, cards::TIME_DRIFT_BUFFER_MS) {
        Err(drift) => (db, Err(MoveError::Time(drift))),
        Ok(now) => match soul_refusal(e, db, caller, soul_id, soul_def, now) {
            Some(err) => (db, Err(err)),
            None => match step_refusal(db, soul_id, from, dest, depart_ms, arrival_ms, now) {
                Some(err) => (db, Err(err)),
                None => (
                    cards::edited(e, db, soul_id, arrival_ms, arrived(dest)),
                    Ok(()),
                ),
            },
        },
    }
}

/// Store a soul's arrival on an adjacent tile at the future `arrival_ms`. The soul
/// must be the caller's and free, of the claimed definition, and stand on the
/// claimed tile at the departure.
pub fn move_soul(
    e: &Env,
    tb: &mut Tables,
    client_time_ms: u64,
    caller_player_id: u32,
    soul_id: u32,
    soul_def: u16,
    from_q: i32,
    from_r: i32,
    dest: TilePoint,
    depart_ms: u64,
    arrival_ms: u64,
) -> (r: Result<(), MoveError>)
    requires
        e.wf(),
    ensures
        (final(tb)@, r) == soul_moved(
            *e,
            old(tb)@,
            client_time_ms,
            caller_player_id,
            soul_id,
            soul_def,
            (from_q, from_r),
            dest,
            depart_ms,
            arrival_ms,
        ),
{
    let now_ms: u64 = match cards::effective_now_ms(e, client_time_ms) {
        Err(drift) => {
            return Err(MoveError::Time(drift));
        },
        Ok(t) => t,
    };
    if let Some(err) = check_soul(e, tb, caller_player_id, soul_id, soul_def, now_ms) {
        return Err(err);
    }
    if let Some(err) = check_step(
        tb,
        soul_id,
        (from_q, from_r),
        &dest,
        depart_ms,
        arrival_ms,
        now_ms,
    ) {
        return Err(err);
    }
    if let Some(found) = cards::prior_at(tb, soul_id, arrival_ms) {
        let mut c = found;
        c.macro_zone = packed::with_surface(dest.macro_zone, dest.surface);
        c.micro_location = dest.micro_location;
        let _ = cards::write_at(e, tb, c, arrival_ms);
    }
    Ok(())
}

} // verus!
