//! Gate-facing writes. Authorization is the gateway's job: these trust their
//! arguments.
use vstd::prelude::*;

use crate::cards::cards;
use crate::cards::cards::Card;
use crate::cards::cards::MicroPlace;
use crate::cards::env::Env;
use crate::cards::env::HoldKind;
use crate::cards::micro::Micro;
use crate::history;
use crate::packed;
use crate::pending_actions;
use crate::pending_actions::PendingAction;
use crate::players::souls;
use crate::players::souls::SoulPrivate;
use crate::players::souls::StatField;
use crate::players::souls::StatSlot;
use crate::tables::Db;
use crate::tables::Tables;

verus! {

/// Why a gate call was rejected.
#[derive(Clone, Copy, Debug, PartialEq, Eq, Structural)]
pub enum GateError {
    /// The same proposal is already in flight.
    InFlight { dedup_key: u64 },
    /// No hold family has this selector.
    UnknownHold { kind: u8 },
    /// The slot is taken.
    Unavailable { card_id: u32, exclusive: u32, shared: u32 },
    /// The card has no row in force.
    CardNotFound { card_id: u32 },
    /// The blueprint does not fit the discovery bits.
    BlueprintOutOfRange { blueprint_id: u16 },
    /// The card has no private progression.
    NoSoulPrivate { card_id: u32 },
}

/// The hold family of a wire selector.
pub open spec fn kind_of(kind: u8) -> Option<HoldKind> {
    if kind == 0 {
        Some(HoldKind::Touch)
    } else if kind == 1 {
        Some(HoldKind::SlotHold)
    } else if kind == 2 {
        Some(HoldKind::SlotShare)
    } else if kind == 3 {
        Some(HoldKind::PositionHold)
    } else if kind == 4 {
        Some(HoldKind::DropHold)
    } else if kind == 5 {
        Some(HoldKind::Server)
    } else {
        None
    }
}

fn hold_kind(kind: u8) -> (k: Option<HoldKind>)
    ensures
        k == kind_of(kind),
{
    match kind {
        0 => Some(HoldKind::Touch),
        1 => Some(HoldKind::SlotHold),
        2 => Some(HoldKind::SlotShare),
        3 => Some(HoldKind::PositionHold),
        4 => Some(HoldKind::DropHold),
        5 => Some(HoldKind::Server),
        _ => None,
    }
}

/// Claim the in-flight slot of a `(recipe, root, bindings)` tuple.
pub fn claim_pending(
    tb: &mut Tables,
    recipe_id: u16,
    root: u32,
    bindings: &Vec<Vec<u32>>,
    completion_ms: u64,
) -> (r: Result<(), GateError>)
    ensures
        ({
            let key = pending_actions::key_of(recipe_id, root, bindings@);
            if pending_actions::in_flight(old(tb)@.pending_actions, key) {
                r == Err::<(), GateError>(GateError::InFlight { dedup_key: key }) && final(tb)@
                    == old(tb)@
            } else {
                r == Ok::<(), GateError>(()) && final(tb)@ == (Db {
                    pending_actions: old(tb)@.pending_actions.push(
                        PendingAction { dedup_key: key, completion_ms },
                    ),
                    ..old(tb)@
                })
            }
        }),
{
    let key: u64 = pending_actions::dedup_key(recipe_id, root, bindings);
    if pending_actions::is_in_flight(&tb.pending_actions, key) {
        return Err(GateError::InFlight { dedup_key: key });
    }
    pending_actions::install(&mut tb.pending_actions, key, completion_ms);
    Ok(())
}

/// Release the in-flight slot of a tuple; nothing happens where none is claimed.
pub fn release_pending(tb: &mut Tables, recipe_id: u16, root: u32, bindings: &Vec<Vec<u32>>) -> (r:
    Result<(), GateError>)
    ensures
        r == Ok::<(), GateError>(()),
        final(tb)@ == (Db {
            pending_actions: pending_actions::released(
                old(tb)@.pending_actions,
                pending_actions::key_of(recipe_id, root, bindings@),
            ),
            ..old(tb)@
        }),
{
    let key: u64 = pending_actions::dedup_key(recipe_id, root, bindings);
    pending_actions::release(&mut tb.pending_actions, key);
    Ok(())
}

/// The outcome of taking or giving back one reference by wire selector.
pub open spec fn dispatched(e: Env, db: Db, card_id: u32, t: u64, kind: u8, up: bool) -> (
    Db,
    Result<(), GateError>,
) {
    match kind_of(kind) {
        Some(k) => (cards::held(e, db, card_id, t, k, up), Ok(())),
        None => (db, Err(GateError::UnknownHold { kind })),
    }
}

fn dispatch_hold(e: &Env, tb: &mut Tables, card_id: u32, time_ms: u64, kind: u8, acquire: bool) -> (r:
    Result<(), GateError>)
    requires
        e.wf(),
    ensures
        (final(tb)@, r) == dispatched(*e, old(tb)@, card_id, time_ms, kind, acquire),
{
    match hold_kind(kind) {
        None => Err(GateError::UnknownHold { kind }),
        Some(k) => {
            if acquire {
                cards::acquire_hold(e, tb, card_id, time_ms, k);
            } else {
                cards::release_hold(e, tb, card_id, time_ms, k);
            }
            Ok(())
        },
    }
}

/// Take one reference of hold `kind` on a card at `time_ms`.
pub fn acquire_hold(e: &Env, tb: &mut Tables, card_id: u32, time_ms: u64, kind: u8) -> (r: Result<
    (),
    GateError,
>)
    requires
        e.wf(),
    ensures
        (final(tb)@, r) == dispatched(*e, old(tb)@, card_id, time_ms, kind, true),
{
    dispatch_hold(e, tb, card_id, time_ms, kind, true)
}

/// Give back one reference of hold `kind` on a card at `time_ms`.
pub fn release_hold(e: &Env, tb: &mut Tables, card_id: u32, time_ms: u64, kind: u8) -> (r: Result<
    (),
    GateError,
>)
    requires
        e.wf(),
    ensures
        (final(tb)@, r) == dispatched(*e, old(tb)@, card_id, time_ms, kind, false),
{
    dispatch_hold(e, tb, card_id, time_ms, kind, false)
}

/// Why a lease cannot be taken, if so: an exclusive slot must be free of any
/// slot hold, a shared one of exclusive holds; other families are always free.
pub open spec fn lease_conflict(e: Env, db: Db, card_id: u32, kind: u8, t: u64) -> Option<GateError> {
    let bk = match history::prior_at(db.cards, card_id, t) {
        Some(c) => c.flags_bk,
        None => 0,
    };
    let exclusive = cards::hold_value(e, HoldKind::SlotHold, bk);
    let shared = cards::hold_value(e, HoldKind::SlotShare, bk);
    if (kind == 1 && (exclusive > 0 || shared > 0)) || (kind == 2 && exclusive > 0) {
        Some(GateError::Unavailable { card_id, exclusive, shared })
    } else {
        None
    }
}

/// Outcome of taking a lease.
pub open spec fn leased(
    e: Env,
    db: Db,
    card_id: u32,
    kind: u8,
    acquire_ms: u64,
    release_ms: u64,
) -> (Db, Result<(), GateError>) {
    match lease_conflict(e, db, card_id, kind, acquire_ms) {
        Some(err) => (db, Err(err)),
        None => match kind_of(kind) {
            None => (db, Err(GateError::UnknownHold { kind })),
            Some(k) => (
                cards::held(
                    e,
                    cards::held(e, db, card_id, acquire_ms, k, true),
                    card_id,
                    release_ms,
                    k,
                    false,
                ),
                Ok(()),
            ),
        },
    }
}

/// Take a self-expiring lease of hold `kind`: the reference is taken at
/// `acquire_ms` and its release is written at `release_ms`.
pub fn acquire_lease(
    e: &Env,
    tb: &mut Tables,
    card_id: u32,
    kind: u8,
    acquire_ms: u64,
    release_ms: u64,
) -> (r: Result<(), GateError>)
    requires
        e.wf(),
    ensures
        (final(tb)@, r) == leased(*e, old(tb)@, card_id, kind, acquire_ms, release_ms),
{
    let bk: u32 = match cards::prior_at(tb, card_id, acquire_ms) {
        Some(c) => c.flags_bk,
        None => 0,
    };
    let exclusive: u32 = cards::hold_count(e, HoldKind::SlotHold, bk);
    let shared: u32 = cards::hold_count(e, HoldKind::SlotShare, bk);
    if (kind == 1 && (exclusive > 0 || shared > 0)) || (kind == 2 && exclusive > 0) {
        return Err(GateError::Unavailable { card_id, exclusive, shared });
    }
    match dispatch_hold(e, tb, card_id, acquire_ms, kind, true) {
        Err(err) => {
            return Err(err);
        },
        Ok(_) => {},
    }
    dispatch_hold(e, tb, card_id, release_ms, kind, false)
}

/// The counter that a wire field and byte name.
pub open spec fn wire_slot(field: u8, byte_index: u8) -> Option<StatSlot> {
    if byte_index >= 4 {
        None
    } else if field == 0 {
        Some(StatSlot { field: StatField::Stats, byte_index })
    } else if field == 1 {
        Some(StatSlot { field: StatField::Fatigued, byte_index })
    } else if field == 2 {
        Some(StatSlot { field: StatField::Injured, byte_index })
    } else {
        None
    }
}

/// `db` after stepping one of a soul's counters.
pub open spec fn stat_set(
    db: Db,
    soul_card_id: u32,
    field: u8,
    byte_index: u8,
    delta: i8,
    t: u64,
) -> Db {
    match wire_slot(field, byte_index) {
        Some(x) => souls::slot_delta(db, soul_card_id, x, delta, t),
        None => db,
    }
}

/// Step one of a soul's counters: up for a positive `delta`, else down. An
/// unknown counter is left alone.
pub fn set_soul_stat(
    tb: &mut Tables,
    soul_card_id: u32,
    field: u8,
    byte_index: u8,
    delta: i8,
    time_ms: u64,
) -> (r: Result<(), GateError>)
    ensures
        r == Ok::<(), GateError>(()),
        final(tb)@ == stat_set(old(tb)@, soul_card_id, field, byte_index, delta, time_ms),
{
    if byte_index < 4 {
        let f: Option<StatField> = match field {
            0 => Some(StatField::Stats),
            1 => Some(StatField::Fatigued),
            2 => Some(StatField::Injured),
            _ => None,
        };
        match f {
            None => {},
            Some(field) => {
                souls::apply_slot_delta(
                    tb,
                    soul_card_id,
                    StatSlot { field, byte_index },
                    delta,
                    time_ms,
                );
            },
        }
    }
    Ok(())
}

/// `db` after creating a card loose on the first cell of a surface.
pub open spec fn card_created(
    e: Env,
    db: Db,
    time_ms: u64,
    packed_def: u16,
    surface: u8,
    macro_zone: u64,
    owner_id: u32,
) -> Db {
    cards::after_write(
        e,
        cards::id_taken(db),
        cards::fresh_card(
            e,
            cards::next_id(db),
            packed::on_surface(macro_zone, surface),
            Micro::Loose {
                local_q: 0,
                local_r: 0,
                x: 0,
                y: 0,
                kind: e.loose_kinds@[surface as int],
            },
            owner_id,
            packed_def,
            0,
            0,
        ),
        time_ms,
    )
}

/// Create a card loose at cell `(0, 0)` on `surface`, under a fresh id.
pub fn create_card(
    e: &Env,
    tb: &mut Tables,
    time_ms: u64,
    packed_def: u16,
    surface: u8,
    macro_zone: u64,
    owner_id: u32,
) -> (r: Result<(), GateError>)
    requires
        e.wf(),
    ensures
        r == Ok::<(), GateError>(()),
        final(tb)@ == card_created(
            *e,
            old(tb)@,
            time_ms,
            packed_def,
            surface,
            macro_zone,
            owner_id,
        ),
{
    let new_id: u32 = cards::next_card_id(tb);
    let _ = cards::create_at(
        e,
        tb,
        new_id,
        time_ms,
        packed::with_surface(macro_zone, surface),
        Micro::snap(0, 0, e.loose_kind_for_surface(surface)),
        owner_id,
        packed_def,
        0,
        0,
    );
    Ok(())
}

/// The outcome of editing the row of a card in force at `t`.
pub open spec fn edit_outcome(e: Env, db: Db, card_id: u32, t: u64, f: spec_fn(Card) -> Card) -> (
    Db,
    Result<(), GateError>,
) {
    match history::prior_at(db.cards, card_id, t) {
        None => (db, Err(GateError::CardNotFound { card_id })),
        Some(c) => (cards::after_write(e, db, f(c), t), Ok(())),
    }
}

/// A card placed at a new location, with its position asserted.
pub open spec fn repositioned(e: Env, macro_zone: u64, m: Micro, c: Card) -> Card {
    let p = cards::placed(e, m, Card { macro_zone, ..c });
    Card { flags_state: p.flags_state | e.state.pos_need, ..p }
}

pub fn reposition(e: &Env, macro_zone: u64, m: Micro, c: Card) -> (out: Card)
    requires
        e.wf(),
    ensures
        out == repositioned(*e, macro_zone, m, c),
{
    let mut out = c;
    out.macro_zone = macro_zone;
    m.place(e, &mut out);
    out.flags_state = out.flags_state | e.state.pos_need;
    out
}

/// The loose placement that a packed cell denotes on a surface.
pub open spec fn loose_at(e: Env, surface: u8, micro_location: u32) -> Micro {
    let f = packed::micro_loose_fields(micro_location);
    Micro::Loose {
        local_q: f.0,
        local_r: f.1,
        x: f.2,
        y: f.3,
        kind: e.loose_kinds@[surface as int],
    }
}

pub fn loose_placement(e: &Env, surface: u8, micro_location: u32) -> (m: Micro)
    requires
        e.wf(),
    ensures
        m == loose_at(*e, surface, micro_location),
{
    let f: (u8, u8, i16, i16) = packed::unpack_micro_loose(micro_location);
    Micro::Loose {
        local_q: f.0,
        local_r: f.1,
        x: f.2,
        y: f.3,
        kind: e.loose_kind_for_surface(surface),
    }
}

/// Outcome of moving a card loose to a cell.
pub open spec fn card_moved(
    e: Env,
    db: Db,
    card_id: u32,
    t: u64,
    surface: u8,
    macro_zone: u64,
    micro_location: u32,
) -> (Db, Result<(), GateError>) {
    edit_outcome(
        e,
        db,
        card_id,
        t,
        |c: Card|
            repositioned(
                e,
                packed::on_surface(macro_zone, surface),
                loose_at(e, surface, micro_location),
                c,
            ),
    )
}

/// Move a card loose to the proposed cell, asserting its position.
pub fn move_card(
    e: &Env,
    tb: &mut Tables,
    card_id: u32,
    time_ms: u64,
    surface: u8,
    macro_zone: u64,
    micro_location: u32,
) -> (r: Result<(), GateError>)
    requires
        e.wf(),
    ensures
        (final(tb)@, r) == card_moved(
            *e,
            old(tb)@,
            card_id,
            time_ms,
            surface,
            macro_zone,
            micro_location,
        ),
{
    let full: u64 = packed::with_surface(macro_zone, surface);
    let m = loose_placement(e, surface, micro_location);
    match cards::prior_at(tb, card_id, time_ms) {
        None => Err(GateError::CardNotFound { card_id }),
        Some(c) => {
            let _ = cards::write_at(e, tb, reposition(e, full, m, c), time_ms);
            Ok(())
        },
    }
}

/// The member placement at `index`, capped at the last slot.
pub open spec fn member_of(root: u32, branch: u8, index: u8) -> Micro {
    Micro::Stacked {
        root,
        branch,
        index: if index < 15 {
            index
        } else {
            15
        },
    }
}

/// Outcome of making a card a member of a stack.
pub open spec fn card_stacked(
    e: Env,
    db: Db,
    card_id: u32,
    t: u64,
    surface: u8,
    macro_zone: u64,
    root: u32,
    branch: u8,
    index: u8,
) -> (Db, Result<(), GateError>) {
    edit_outcome(
        e,
        db,
        card_id,
        t,
        |c: Card|
            repositioned(
                e,
                packed::on_surface(macro_zone, surface),
                member_of(root, branch, index),
                c,
            ),
    )
}

/// Make a card a flat member of `root`, asserting its position.
pub fn stack_card(
    e: &Env,
    tb: &mut Tables,
    card_id: u32,
    time_ms: u64,
    surface: u8,
    macro_zone: u64,
    root: u32,
    branch: u8,
    index: u8,
) -> (r: Result<(), GateError>)
    requires
        e.wf(),
    ensures
        (final(tb)@, r) == card_stacked(
            *e,
            old(tb)@,
            card_id,
            time_ms,
            surface,
            macro_zone,
            root,
            branch,
            index,
        ),
{
    let full: u64 = packed::with_surface(macro_zone, surface);
    let index: u8 = if index < 15 {
        index
    } else {
        15
    };
    let m = Micro::Stacked { root, branch, index };
    match cards::prior_at(tb, card_id, time_ms) {
        None => Err(GateError::CardNotFound { card_id }),
        Some(c) => {
            let _ = cards::write_at(e, tb, reposition(e, full, m, c), time_ms);
            Ok(())
        },
    }
}

/// A card at the end of an action: no position assertion is left, and the
/// progress style is replaced.
pub open spec fn finalized(e: Env, progress_style: u8, c: Card) -> Card {
    let s = e.state;
    let bits = ((progress_style as u32) << s.progress_style_shift) & s.progress_style_mask;
    Card {
        flags_state: ((c.flags_state & !s.pos_need & !s.pos_want) & !s.progress_style_mask) | bits,
        ..c
    }
}

pub fn finalize(e: &Env, progress_style: u8, c: Card) -> (out: Card)
    requires
        e.wf(),
    ensures
        out == finalized(*e, progress_style, c),
{
    let s = &e.state;
    let bits: u32 = ((progress_style as u32) << s.progress_style_shift) & s.progress_style_mask;
    let mut out = c;
    out.flags_state = ((c.flags_state & !s.pos_need & !s.pos_want) & !s.progress_style_mask) | bits;
    out
}

/// Outcome of finalizing a card.
pub open spec fn card_finalized(e: Env, db: Db, card_id: u32, t: u64, progress_style: u8) -> (
    Db,
    Result<(), GateError>,
) {
    edit_outcome(e, db, card_id, t, |c: Card| finalized(e, progress_style, c))
}

/// Finalize a bound card at the completion of its action.
pub fn finalize_card(e: &Env, tb: &mut Tables, card_id: u32, time_ms: u64, progress_style: u8) -> (r:
    Result<(), GateError>)
    requires
        e.wf(),
    ensures
        (final(tb)@, r) == card_finalized(*e, old(tb)@, card_id, time_ms, progress_style),
{
    match cards::prior_at(tb, card_id, time_ms) {
        None => Err(GateError::CardNotFound { card_id }),
        Some(c) => {
            let _ = cards::write_at(e, tb, finalize(e, progress_style, c), time_ms);
            Ok(())
        },
    }
}

/// The discovery bit of a blueprint.
pub open spec fn blueprint_bit(blueprint_id: u16) -> u64 {
    1u64 << ((blueprint_id - 1) as u64)
}

/// The outcome of discovering a blueprint for a soul.
pub open spec fn unlocked(db: Db, card_id: u32, blueprint_id: u16) -> (Db, Result<(), GateError>) {
    if blueprint_id == 0 || blueprint_id > 64 {
        (db, Err(GateError::BlueprintOutOfRange { blueprint_id }))
    } else {
        match souls::private_index(db.soul_privates, card_id) {
            None => (db, Err(GateError::NoSoulPrivate { card_id })),
            Some(i) => {
                let row = db.soul_privates[i];
                (
                    Db {
                        soul_privates: db.soul_privates.update(
                            i,
                            SoulPrivate {
                                blueprints_0: row.blueprints_0 | blueprint_bit(blueprint_id),
                                ..row
                            },
                        ),
                        ..db
                    },
                    Ok(()),
                )
            },
        }
    }
}

/// Set a blueprint's discovery bit; a bit that is already set stays set.
pub fn unlock_blueprint(tb: &mut Tables, target_card_id: u32, blueprint_id: u16) -> (r: Result<
    (),
    GateError,
>)
    ensures
        (final(tb)@, r) == unlocked(old(tb)@, target_card_id, blueprint_id),
{
    if blueprint_id == 0 || blueprint_id > 64 {
        return Err(GateError::BlueprintOutOfRange { blueprint_id });
    }
    let bit: u64 = 1u64 << ((blueprint_id - 1) as u64);
    match souls::find_private(tb, target_card_id) {
        None => Err(GateError::NoSoulPrivate { card_id: target_card_id }),
        Some(i) => {
            let mut row = tb.soul_privates[i];
            row.blueprints_0 = row.blueprints_0 | bit;
            tb.soul_privates.set(i, row);
            Ok(())
        },
    }
}

/// Discovering a blueprint twice is the same as once.
pub proof fn unlock_is_idempotent(db: Db, card_id: u32, blueprint_id: u16)
    ensures
        unlocked(unlocked(db, card_id, blueprint_id).0, card_id, blueprint_id) == unlocked(
            db,
            card_id,
            blueprint_id,
        ),
{
    if 0 < blueprint_id <= 64 {
        if let Some(i) = souls::private_index(db.soul_privates, card_id) {
            let d = unlocked(db, card_id, blueprint_id).0;
            souls::private_index_found(db.soul_privates, card_id);
            lemma_private_index_update(db.soul_privates, card_id, i, d.soul_privates[i]);
            let b = db.soul_privates[i].blueprints_0;
            let bit = blueprint_bit(blueprint_id);
            assert((b | bit) | bit == b | bit) by (bit_vector);
            let d2 = unlocked(d, card_id, blueprint_id).0;
            assert(d2.soul_privates =~= d.soul_privates);
        }
    }
}

proof fn lemma_private_index_update(rows: Seq<SoulPrivate>, card_id: u32, i: int, row: SoulPrivate)
    requires
        souls::private_index(rows, card_id) == Some(i),
        row.card_id == card_id,
    ensures
        0 <= i < rows.len(),
        souls::private_index(rows.update(i, row), card_id) == Some(i),
    decreases rows.len(),
{
    if rows.len() > 0 && rows.last().card_id != card_id {
        lemma_private_index_update(rows.drop_last(), card_id, i, row);
        assert(rows.update(i, row).drop_last() =~= rows.drop_last().update(i, row));
    }
}

/// Outcome of destroying a card.
pub open spec fn card_destroyed(e: Env, db: Db, card_id: u32, t: u64) -> (
    Db,
    Result<(), GateError>,
) {
    edit_outcome(
        e,
        db,
        card_id,
        t,
        |c: Card| Card { flags_state: c.flags_state | e.state.dead, ..c },
    )
}

/// Destroy a card at `time_ms`.
pub fn destroy_card(e: &Env, tb: &mut Tables, card_id: u32, time_ms: u64) -> (r: Result<
    (),
    GateError,
>)
    requires
        e.wf(),
    ensures
        (final(tb)@, r) == card_destroyed(*e, old(tb)@, card_id, time_ms),
{
    match cards::prior_at(tb, card_id, time_ms) {
        None => Err(GateError::CardNotFound { card_id }),
        Some(c) => {
            let mut d = c;
            d.flags_state = c.flags_state | e.state.dead;
            let _ = cards::write_at(e, tb, d, time_ms);
            Ok(())
        },
    }
}

} // verus!
