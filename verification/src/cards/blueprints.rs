//! Blueprint requests: placing a known blueprint as a card.
use vstd::prelude::*;

use crate::cards::cards;
use crate::cards::env::Env;
use crate::cards::env::HoldKind;
use crate::cards::gate_api;
use crate::history;
use crate::packed;
use crate::players::souls;
use crate::tables::Db;
use crate::tables::Tables;
use crate::time;
use crate::time::TimeDrift;

verus! {

/// Why a blueprint request was rejected.
#[derive(Clone, Copy, Debug, PartialEq, Eq, Structural)]
pub enum BlueprintError {
    Time(TimeDrift),
    SoulNotFound,
    SoulDead,
    NotASoul,
    ExclusivelyHeld,
    SharedHeld,
    PositionHeld,
    /// Another player, or the world, owns the soul.
    NotOwner { player_id: u32 },
    ReservedId,
    NoDefinition,
    NoSoulPrivate,
    /// The blueprint does not fit the discovery bits.
    OutOfRange,
    NotDiscovered,
    /// The soul cannot build.
    NoBuilder,
    /// The soul has as many live blueprints as it may.
    AtCap { active: u8 },
}

/// Why a request at `now` is rejected, if so. The checks come in this order.
pub open spec fn rejection(
    e: Env,
    db: Db,
    now: u64,
    caller: u32,
    soul_card_id: u32,
    blueprint_id: u16,
    max_active: i32,
    def: u16,
) -> Option<BlueprintError> {
    match history::prior_at(db.cards, soul_card_id, now) {
        None => Some(BlueprintError::SoulNotFound),
        Some(soul) => {
            let owner = match cards::player_of(e, db, soul_card_id) {
                Some(p) => p,
                None => cards::WORLD_PLAYER_ID,
            };
            if cards::is_dead(e, soul) {
                Some(BlueprintError::SoulDead)
            } else if packed::card_type(soul.packed_definition) != souls::SOUL_CARD_TYPE {
                Some(BlueprintError::NotASoul)
            } else if cards::hold_value(e, HoldKind::SlotHold, soul.flags_bk) > 0 {
                Some(BlueprintError::ExclusivelyHeld)
            } else if cards::hold_value(e, HoldKind::SlotShare, soul.flags_bk) > 0 {
                Some(BlueprintError::SharedHeld)
            } else if cards::hold_value(e, HoldKind::PositionHold, soul.flags_bk) > 0 {
                Some(BlueprintError::PositionHeld)
            } else if owner != caller {
                Some(BlueprintError::NotOwner { player_id: owner })
            } else if blueprint_id == 0 {
                Some(BlueprintError::ReservedId)
            } else if def == 0 {
                Some(BlueprintError::NoDefinition)
            } else {
                match souls::private_index(db.soul_privates, soul_card_id) {
                    None => Some(BlueprintError::NoSoulPrivate),
                    Some(i) => {
                        let private = db.soul_privates[i];
                        if blueprint_id > 64 {
                            Some(BlueprintError::OutOfRange)
                        } else if private.blueprints_0 & gate_api::blueprint_bit(blueprint_id)
                            == 0 {
                            Some(BlueprintError::NotDiscovered)
                        } else if max_active <= 0 {
                            Some(BlueprintError::NoBuilder)
                        } else if private.active_blueprints >= max_active {
                            Some(BlueprintError::AtCap { active: private.active_blueprints })
                        } else {
                            None
                        }
                    },
                }
            }
        },
    }
}

fn check(
    e: &Env,
    tb: &Tables,
    now: u64,
    caller: u32,
    soul_card_id: u32,
    blueprint_id: u16,
    max_active: i32,
    def: u16,
) -> (err: Option<BlueprintError>)
    requires
        e.wf(),
    ensures
        err == rejection(
            *e,
            tb@,
            now,
            caller,
            soul_card_id,
            blueprint_id,
            max_active,
            def,
        ),
{
    let soul = match cards::prior_at(tb, soul_card_id, now) {
        None => {
            return Some(BlueprintError::SoulNotFound);
        },
        Some(c) => c,
    };
    if soul.flags_state & e.state.dead != 0 {
        return Some(BlueprintError::SoulDead);
    }
    if !souls::is_soul_card(soul.packed_definition) {
        return Some(BlueprintError::NotASoul);
    }
    if cards::hold_count(e, HoldKind::SlotHold, soul.flags_bk) > 0 {
        return Some(BlueprintError::ExclusivelyHeld);
    }
    if cards::hold_count(e, HoldKind::SlotShare, soul.flags_bk) > 0 {
        return Some(BlueprintError::SharedHeld);
    }
    if cards::hold_count(e, HoldKind::PositionHold, soul.flags_bk) > 0 {
        return Some(BlueprintError::PositionHeld);
    }
    let owner: u32 = match cards::owning_player(e, tb, soul_card_id) {
        Some(p) => p,
        None => cards::WORLD_PLAYER_ID,
    };
    if owner != caller {
        return Some(BlueprintError::NotOwner { player_id: owner });
    }
    if blueprint_id == 0 {
        return Some(BlueprintError::ReservedId);
    }
    if def == 0 {
        return Some(BlueprintError::NoDefinition);
    }
    let private = match souls::find_private(tb, soul_card_id) {
        None => {
            return Some(BlueprintError::NoSoulPrivate);
        },
        Some(i) => tb.soul_privates[i],
    };
    if blueprint_id > 64 {
        return Some(BlueprintError::OutOfRange);
    }
    let bit: u64 = 1u64 << ((blueprint_id - 1) as u64);
    if private.blueprints_0 & bit == 0 {
        return Some(BlueprintError::NotDiscovered);
    }
    if max_active <= 0 {
        return Some(BlueprintError::NoBuilder);
    }
    if private.active_blueprints as i32 >= max_active {
        return Some(BlueprintError::AtCap { active: private.active_blueprints });
    }
    None
}

/// The outcome of a request for a blueprint.
pub open spec fn requested(
    e: Env,
    db: Db,
    client_time_ms: u64,
    caller: u32,
    soul_card_id: u32,
    blueprint_id: u16,
    surface: u8,
    macro_zone: u64,
    micro_location: u32,
    max_active: i32,
    def: u16,
) -> (Db, Result<(), BlueprintError>) {
    match time::resolved(e.now_ms, client_time_ms, cards::TIME_DRIFT_BUFFER_MS) {
        Err(d) => (db, Err(BlueprintError::Time(d))),
        Ok(now) => match rejection(
            e,
            db,
            now,
            caller,
            soul_card_id,
            blueprint_id,
            max_active,
            def,
        ) {
            Some(err) => (db, Err(err)),
            None => (
                cards::after_write(
                    e,
                    cards::id_taken(db),
                    cards::fresh_card(
                        e,
                        cards::next_id(db),
                        packed::on_surface(macro_zone, surface),
                        gate_api::loose_at(e, surface, micro_location),
                        soul_card_id,
                        def,
                        0,
                        0,
                    ),
                    now,
                ),
                Ok(()),
            ),
        },
    }
}

/// Place a blueprint card at the requested cell, owned by the caller's soul. The
/// write itself counts it against the soul's active blueprints.
pub fn request_blueprint(
    e: &Env,
    tb: &mut Tables,
    client_time_ms: u64,
    caller_player_id: u32,
    soul_card_id: u32,
    blueprint_id: u16,
    surface: u8,
    macro_zone: u64,
    micro_location: u32,
    max_active: i32,
    blueprint_packed_def: u16,
) -> (r: Result<(), BlueprintError>)
    requires
        e.wf(),
    ensures
        (final(tb)@, r) == requested(
            *e,
            old(tb)@,
            client_time_ms,
            caller_player_id,
            soul_card_id,
            blueprint_id,
            surface,
            macro_zone,
            micro_location,
            max_active,
            blueprint_packed_def,
        ),
{
    let now: u64 = match cards::effective_now_ms(e, client_time_ms) {
        Err(d) => {
            return Err(BlueprintError::Time(d));
        },
        Ok(t) => t,
    };
    match check(
        e,
        tb,
        now,
        caller_player_id,
        soul_card_id,
        blueprint_id,
        max_active,
        blueprint_packed_def,
    ) {
        Some(err) => {
            return Err(err);
        },
        None => {},
    }
    let card_id: u32 = cards::next_card_id(tb);
    let m = gate_api::loose_placement(e, surface, micro_location);
    let _ = cards::create_at(
        e,
        tb,
        card_id,
        now,
        packed::with_surface(macro_zone, surface),
        m,
        soul_card_id,
        blueprint_packed_def,
        0,
        0,
    );
    Ok(())
}

} // verus!
