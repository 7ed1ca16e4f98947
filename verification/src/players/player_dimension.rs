//! Player dimensions: a private grid of zones per player that souls can visit.
use vstd::prelude::*;

use crate::cards::cards;
use crate::cards::cards::Card;
use crate::cards::env::Env;
use crate::cards::env::HoldKind;
use crate::cards::micro::Micro;
use crate::history;
use crate::packed;
use crate::players::lifecycle_pending;
use crate::players::lifecycle_pending::Blocked;
use crate::players::players;
use crate::players::players::ConnectionId;
use crate::players::players::PlayerError;
use crate::players::relocation;
use crate::players::souls;
use crate::regions::zones;
use crate::tables::Db;
use crate::tables::Tables;
use crate::time;
use crate::time::TimeDrift;

verus! {

/// Zones along one side of a dimension.
pub const PLAYER_DIMENSION_GRID_SIZE: i16 = 2;

/// Why a soul cannot enter or leave.
#[derive(Clone, Copy, Debug, PartialEq, Eq, Structural)]
pub enum DimensionError {
    Caller(PlayerError),
    Time(TimeDrift),
    Blocked(Blocked),
    SoulMissing { card_id: u32 },
    SoulDead { card_id: u32 },
    NotASoul { card_id: u32 },
    Claimed { card_id: u32 },
    Shared { card_id: u32 },
    PositionHeld { card_id: u32 },
    NotOwned { card_id: u32, owner: u32 },
    ChunkOutOfRange { chunk_q: i16, chunk_r: i16 },
    CellOutOfRange { local_q: u8, local_r: u8 },
    /// The player's dimension has no zone there.
    NoZone { location: u64 },
    NotInDimension { surface: u8 },
    /// The target is not a loose cell.
    TargetNotLoose,
    Occupied,
}

/// Why a soul may not be moved by the caller; the soul's row where it may.
pub open spec fn movable(e: Env, db: Db, card_id: u32, caller: u32, t: u64) -> Result<
    Card,
    DimensionError,
> {
    match history::prior_at(db.cards, card_id, t) {
        None => Err(DimensionError::SoulMissing { card_id }),
        Some(c) => {
            let owner = match cards::player_of(e, db, card_id) {
                Some(p) => p,
                None => cards::WORLD_PLAYER_ID,
            };
            if cards::is_dead(e, c) {
                Err(DimensionError::SoulDead { card_id })
            } else if packed::card_type(c.packed_definition) != souls::SOUL_CARD_TYPE {
                Err(DimensionError::NotASoul { card_id })
            } else if cards::hold_value(e, HoldKind::SlotHold, c.flags_bk) > 0 {
                Err(DimensionError::Claimed { card_id })
            } else if cards::hold_value(e, HoldKind::SlotShare, c.flags_bk) > 0 {
                Err(DimensionError::Shared { card_id })
            } else if cards::hold_value(e, HoldKind::PositionHold, c.flags_bk) > 0 {
                Err(DimensionError::PositionHeld { card_id })
            } else if owner != caller {
                Err(DimensionError::NotOwned { card_id, owner })
            } else {
                Ok(c)
            }
        },
    }
}

fn validate_soul_for_move(e: &Env, tb: &Tables, card_id: u32, caller: u32, now_ms: u64) -> (r: Result<
    Card,
    DimensionError,
>)
    requires
        e.wf(),
    ensures
        r == movable(*e, tb@, card_id, caller, now_ms),
{
    let c: Card = match cards::prior_at(tb, card_id, now_ms) {
        None => {
            return Err(DimensionError::SoulMissing { card_id });
        },
        Some(c) => c,
    };
    if c.flags_state & e.state.dead != 0 {
        return Err(DimensionError::SoulDead { card_id });
    }
    if !souls::is_soul_card(c.packed_definition) {
        return Err(DimensionError::NotASoul { card_id });
    }
    if cards::hold_count(e, HoldKind::SlotHold, c.flags_bk) > 0 {
        return Err(DimensionError::Claimed { card_id });
    }
    if cards::hold_count(e, HoldKind::SlotShare, c.flags_bk) > 0 {
        return Err(DimensionError::Shared { card_id });
    }
    if cards::hold_count(e, HoldKind::PositionHold, c.flags_bk) > 0 {
        return Err(DimensionError::PositionHeld { card_id });
    }
    let owner: u32 = match cards::owning_player(e, tb, card_id) {
        Some(p) => p,
        None => cards::WORLD_PLAYER_ID,
    };
    if owner != caller {
        return Err(DimensionError::NotOwned { card_id, owner });
    }
    Ok(c)
}

/// Why coordinates lie outside a dimension.
pub open spec fn coords_error(chunk_q: i16, chunk_r: i16, local_q: u8, local_r: u8) -> Option<
    DimensionError,
> {
    if !(0 <= chunk_q < PLAYER_DIMENSION_GRID_SIZE && 0 <= chunk_r < PLAYER_DIMENSION_GRID_SIZE) {
        Some(DimensionError::ChunkOutOfRange { chunk_q, chunk_r })
    } else if local_q >= 8 || local_r >= 8 {
        Some(DimensionError::CellOutOfRange { local_q, local_r })
    } else {
        None
    }
}

/// Check that coordinates lie inside a dimension.
pub fn validate_target_coords(chunk_q: i16, chunk_r: i16, local_q: u8, local_r: u8) -> (err: Option<
    DimensionError,
>)
    ensures
        err == coords_error(chunk_q, chunk_r, local_q, local_r),
{
    if chunk_q < 0 || chunk_q >= PLAYER_DIMENSION_GRID_SIZE || chunk_r < 0 || chunk_r
        >= PLAYER_DIMENSION_GRID_SIZE {
        return Some(DimensionError::ChunkOutOfRange { chunk_q, chunk_r });
    }
    if local_q >= 8 || local_r >= 8 {
        return Some(DimensionError::CellOutOfRange { local_q, local_r });
    }
    None
}

/// The caller, the time, and the tables after the guard against overdue actions.
pub open spec fn let_through(e: Env, db: Db, caller: ConnectionId, client_time_ms: u64) -> (
    Db,
    Result<(u32, u64), DimensionError>,
) {
    match players::session_player(db.player_sessions, caller) {
        None => (db, Err(DimensionError::Caller(PlayerError::NoSession))),
        Some(player_id) => match time::resolved(
            e.now_ms,
            client_time_ms,
            time::NO_FORWARD_GRACE_MS,
        ) {
            Err(drift) => (db, Err(DimensionError::Time(drift))),
            Ok(t) => {
                let g = lifecycle_pending::gate(db, player_id, t, Seq::empty());
                match g.1 {
                    Err(b) => (g.0, Err(DimensionError::Blocked(b))),
                    Ok(()) => (g.0, Ok((player_id, t))),
                }
            },
        },
    }
}

fn pass_gate(e: &Env, tb: &mut Tables, caller: ConnectionId, client_time_ms: u64) -> (r: Result<
    (u32, u64),
    DimensionError,
>)
    ensures
        (final(tb)@, r) == let_through(*e, old(tb)@, caller, client_time_ms),
{
    let player_id: u32 = match players::resolve_caller(tb, caller) {
        Err(err) => {
            return Err(DimensionError::Caller(err));
        },
        Ok(p) => p,
    };
    let t: u64 = match time::resolve(e.now_ms, client_time_ms, time::NO_FORWARD_GRACE_MS) {
        Err(drift) => {
            return Err(DimensionError::Time(drift));
        },
        Ok(t) => t,
    };
    let none: Vec<u32> = Vec::new();
    match lifecycle_pending::block_check(tb, player_id, t, &none) {
        Err(b) => Err(DimensionError::Blocked(b)),
        Ok(()) => Ok((player_id, t)),
    }
}

/// Outcome of a soul entering the caller's dimension.
pub open spec fn entered(
    e: Env,
    db: Db,
    caller: ConnectionId,
    client_time_ms: u64,
    card_id: u32,
    chunk_q: i16,
    chunk_r: i16,
    local_q: u8,
    local_r: u8,
) -> (Db, Result<(), DimensionError>) {
    let g = let_through(e, db, caller, client_time_ms);
    match g.1 {
        Err(err) => (g.0, Err(err)),
        Ok((player_id, t)) => match movable(e, g.0, card_id, player_id, t) {
            Err(err) => (g.0, Err(err)),
            Ok(_) => match coords_error(chunk_q, chunk_r, local_q, local_r) {
                Some(err) => (g.0, Err(err)),
                None => {
                    let location = packed::macro_zone_key(
                        player_id,
                        packed::PLAYER_DIMENSION_LAYER,
                        chunk_q as i32,
                        chunk_r as i32,
                    );
                    if zones::latest_on(g.0.zones, location) is None {
                        (g.0, Err(DimensionError::NoZone { location }))
                    } else {
                        (
                            cards::edited(
                                e,
                                g.0,
                                card_id,
                                t,
                                relocation::moved_to(
                                    e,
                                    location,
                                    Micro::Loose {
                                        local_q,
                                        local_r,
                                        x: 0,
                                        y: 0,
                                        kind: e.loose_kinds@[packed::PLAYER_DIMENSION_LAYER as int],
                                    },
                                ),
                            ),
                            Ok(()),
                        )
                    }
                },
            },
        },
    }
}

/// Move a soul of the caller into the caller's dimension.
pub fn enter_player_dimension(
    e: &Env,
    tb: &mut Tables,
    caller: ConnectionId,
    client_time_ms: u64,
    soul_card_id: u32,
    chunk_q: i16,
    chunk_r: i16,
    local_q: u8,
    local_r: u8,
) -> (r: Result<(), DimensionError>)
    requires
        e.wf(),
    ensures
        (final(tb)@, r) == entered(
            *e,
            old(tb)@,
            caller,
            client_time_ms,
            soul_card_id,
            chunk_q,
            chunk_r,
            local_q,
            local_r,
        ),
{
    let g: (u32, u64) = match pass_gate(e, tb, caller, client_time_ms) {
        Err(err) => {
            return Err(err);
        },
        Ok(g) => g,
    };
    match validate_soul_for_move(e, tb, soul_card_id, g.0, g.1) {
        Err(err) => {
            return Err(err);
        },
        Ok(_) => {},
    }
    if let Some(err) = validate_target_coords(chunk_q, chunk_r, local_q, local_r) {
        return Err(err);
    }
    let location: u64 = packed::pack_macro_zone_full(
        g.0,
        packed::PLAYER_DIMENSION_LAYER,
        chunk_q as i32,
        chunk_r as i32,
    );
    if zones::latest_for(&tb.zones, location).is_none() {
        return Err(DimensionError::NoZone { location });
    }
    let m = Micro::snap(
        local_q,
        local_r,
        e.loose_kind_for_surface(packed::PLAYER_DIMENSION_LAYER),
    );
    relocation::move_to(e, tb, soul_card_id, g.1, location, m);
    Ok(())
}

/// Outcome of a soul leaving the caller's dimension for a world cell. It lands
/// in the middle of the cell that `world_micro` names.
pub open spec fn exited(
    e: Env,
    db: Db,
    caller: ConnectionId,
    client_time_ms: u64,
    card_id: u32,
    world_macro_zone: u64,
    world_micro: Micro,
) -> (Db, Result<(), DimensionError>) {
    let g = let_through(e, db, caller, client_time_ms);
    match g.1 {
        Err(err) => (g.0, Err(err)),
        Ok((player_id, t)) => match movable(e, g.0, card_id, player_id, t) {
            Err(err) => (g.0, Err(err)),
            Ok(soul) => if packed::surface(soul.macro_zone) != packed::PLAYER_DIMENSION_LAYER {
                (
                    g.0,
                    Err(DimensionError::NotInDimension { surface: packed::surface(soul.macro_zone) }),
                )
            } else {
                let location = packed::on_surface(world_macro_zone, packed::WORLD_LAYER);
                match world_micro {
                    Micro::Stacked { root, branch, index } => (
                        g.0,
                        Err(DimensionError::TargetNotLoose),
                    ),
                    Micro::Loose { local_q, local_r, x, y, kind } => if zones::latest_on(
                        g.0.zones,
                        location,
                    ) is None {
                        (g.0, Err(DimensionError::NoZone { location }))
                    } else if relocation::occupied(e, g.0, location, local_q, local_r, t) {
                        (g.0, Err(DimensionError::Occupied))
                    } else {
                        (
                            cards::edited(
                                e,
                                g.0,
                                card_id,
                                t,
                                relocation::moved_to(
                                    e,
                                    location,
                                    relocation::world_cell(e, local_q, local_r),
                                ),
                            ),
                            Ok(()),
                        )
                    },
                }
            },
        },
    }
}

/// Move a soul out of the caller's dimension into the middle of a free world
/// cell.
pub fn exit_player_dimension(
    e: &Env,
    tb: &mut Tables,
    caller: ConnectionId,
    client_time_ms: u64,
    soul_card_id: u32,
    world_macro_zone: u64,
    world_micro: Micro,
) -> (r: Result<(), DimensionError>)
    requires
        e.wf(),
    ensures
        (final(tb)@, r) == exited(
            *e,
            old(tb)@,
            caller,
            client_time_ms,
            soul_card_id,
            world_macro_zone,
            world_micro,
        ),
{
    let g: (u32, u64) = match pass_gate(e, tb, caller, client_time_ms) {
        Err(err) => {
            return Err(err);
        },
        Ok(g) => g,
    };
    let soul: Card = match validate_soul_for_move(e, tb, soul_card_id, g.0, g.1) {
        Err(err) => {
            return Err(err);
        },
        Ok(c) => c,
    };
    let surface: u8 = packed::surface_of(soul.macro_zone);
    if surface != packed::PLAYER_DIMENSION_LAYER {
        return Err(DimensionError::NotInDimension { surface });
    }
    let location: u64 = packed::with_surface(world_macro_zone, packed::WORLD_LAYER);
    match world_micro {
        Micro::Stacked { .. } => Err(DimensionError::TargetNotLoose),
        Micro::Loose { local_q, local_r, .. } => {
            if zones::latest_for(&tb.zones, location).is_none() {
                return Err(DimensionError::NoZone { location });
            }
            if relocation::is_occupied(e, tb, location, local_q, local_r, g.1) {
                return Err(DimensionError::Occupied);
            }
            let m: Micro = relocation::on_world_cell(e, local_q, local_r);
            relocation::move_to(e, tb, soul_card_id, g.1, location, m);
            Ok(())
        },
    }
}

} // verus!
