//! Whole-action writes that the gateway requests. The gateway authorizes its
//! callers.
//!
//! A request is one transaction: after an error the tables are for the caller to
//! discard.
use vstd::prelude::*;

use crate::cards::gate_api;
use crate::history;
use crate::packed;
use crate::pending_actions;
use crate::pending_actions::PendingAction;
use crate::players::souls as soul_rows;
use crate::players::souls::SoulPrivate;
use crate::regions::cards::TileError;
use crate::regions::gate_api as stock_ops;
use crate::shard::cards;
use crate::shard::cards::Card;
use crate::shard::cards::MicroPlace;
use crate::shard::model;
use crate::shard::model::HoldField;
use crate::shard::model::Micro;
use crate::shard::place;
use crate::shard::souls;
use crate::shard::tables::Db;
use crate::shard::tables::Env;
use crate::shard::tables::Tables;
use crate::shard::tiles;

verus! {

/// Why a request is refused.
#[derive(Clone, Copy, Debug, PartialEq, Eq, Structural)]
pub enum ActionError {
    /// The same proposal is already in flight.
    InFlight { dedup_key: u64 },
    UnknownHold { kind: u8 },
    /// An exclusive hold is wanted on a card that is held.
    Unavailable { card_id: u32, exclusive: u32, shared: u32 },
    /// A shared hold is wanted on a card that is held exclusively.
    ExclusivelyHeld { card_id: u32 },
    /// The card to finalize, destroy or restock has no row in force.
    CardNotFound { card_id: u32 },
    /// The blueprint does not fit the discovery bits.
    BlueprintOutOfRange { blueprint_id: u16 },
    NoSoulPrivate { card_id: u32 },
    Tile(TileError),
}

// ---- the dedup gate ------------------------------------------------
/// Claim the in-flight slot of a proposal.
pub fn claim_pending(
    tb: &mut Tables,
    recipe_id: u16,
    root: u32,
    bindings: &Vec<Vec<u32>>,
    completion_ms: u64,
) -> (r: Result<(), ActionError>)
    ensures
        ({
            let key = pending_actions::key_of(recipe_id, root, bindings@);
            (final(tb)@, r) == if pending_actions::in_flight(old(tb)@.pending_actions, key) {
                (old(tb)@, Err(ActionError::InFlight { dedup_key: key }))
            } else {
                (
                    Db {
                        pending_actions: old(tb)@.pending_actions.push(
                            PendingAction { dedup_key: key, completion_ms },
                        ),
                        ..old(tb)@
                    },
                    Ok(()),
                )
            }
        }),
{
    let key: u64 = pending_actions::dedup_key(recipe_id, root, bindings);
    if pending_actions::is_in_flight(&tb.pending_actions, key) {
        return Err(ActionError::InFlight { dedup_key: key });
    }
    pending_actions::install(&mut tb.pending_actions, key, completion_ms);
    Ok(())
}

/// Release the in-flight slot of a proposal; nothing happens where none is
/// claimed.
pub fn release_pending(tb: &mut Tables, recipe_id: u16, root: u32, bindings: &Vec<Vec<u32>>)
    ensures
        final(tb)@ == (Db {
            pending_actions: pending_actions::released(
                old(tb)@.pending_actions,
                pending_actions::key_of(recipe_id, root, bindings@),
            ),
            ..old(tb)@
        }),
{
    let key: u64 = pending_actions::dedup_key(recipe_id, root, bindings);
    pending_actions::release(&mut tb.pending_actions, key);
}

// ---- holds ---------------------------------------------------------
/// The hold family of a wire selector for cards.
pub open spec fn field_of(kind: u8) -> Option<HoldField> {
    if kind == 0 {
        Some(HoldField::Touch)
    } else if kind == 1 {
        Some(HoldField::SlotClaim)
    } else if kind == 2 {
        Some(HoldField::SlotBorrow)
    } else if kind == 3 {
        Some(HoldField::PositionHold)
    } else if kind == 4 {
        Some(HoldField::DropHold)
    } else if kind == 5 {
        Some(HoldField::Server)
    } else {
        None
    }
}

/// Outcome of taking or giving back one reference by wire selector.
pub open spec fn dispatched(e: Env, db: Db, card_id: u32, t: u64, kind: u8, up: bool) -> (
    Db,
    Result<(), ActionError>,
) {
    match field_of(kind) {
        Some(f) => (cards::held(e, db, card_id, t, f, up), Ok(())),
        None => (db, Err(ActionError::UnknownHold { kind })),
    }
}

/// The hold family of a selector for tiles: one of the first four.
pub open spec fn tile_field_of(kind: u8) -> Option<HoldField> {
    if kind < 4 {
        field_of(kind)
    } else {
        None
    }
}

/// The hold family of a selector for tiles.
pub fn hold_field(kind: u8) -> (f: Result<HoldField, ActionError>)
    ensures
        f == match tile_field_of(kind) {
            Some(f) => Ok::<HoldField, ActionError>(f),
            None => Err(ActionError::UnknownHold { kind }),
        },
{
    match kind {
        0 => Ok(HoldField::Touch),
        1 => Ok(HoldField::SlotClaim),
        2 => Ok(HoldField::SlotBorrow),
        3 => Ok(HoldField::PositionHold),
        _ => Err(ActionError::UnknownHold { kind }),
    }
}

/// Take or give back one reference of a hold by wire selector.
pub fn dispatch_hold(
    e: &Env,
    tb: &mut Tables,
    card_id: u32,
    time_ms: u64,
    kind: u8,
    acquire: bool,
) -> (r: Result<(), ActionError>)
    requires
        e.wf(),
    ensures
        (final(tb)@, r) == dispatched(*e, old(tb)@, card_id, time_ms, kind, acquire),
{
    let field: HoldField = match kind {
        0 => HoldField::Touch,
        1 => HoldField::SlotClaim,
        2 => HoldField::SlotBorrow,
        3 => HoldField::PositionHold,
        4 => HoldField::DropHold,
        5 => HoldField::Server,
        _ => {
            return Err(ActionError::UnknownHold { kind });
        },
    };
    if acquire {
        cards::acquire_hold(e, tb, card_id, time_ms, field);
    } else {
        cards::release_hold(e, tb, card_id, time_ms, field);
    }
    Ok(())
}

/// Bit `kind` of a hold mask, for the first four families.
pub open spec fn wants(mask: u8, kind: int) -> bool {
    if kind == 0 {
        mask % 2 == 1
    } else if kind == 1 {
        mask / 2 % 2 == 1
    } else if kind == 2 {
        mask / 4 % 2 == 1
    } else {
        mask / 8 % 2 == 1
    }
}

fn has_kind(mask: u8, kind: u8) -> (r: bool)
    requires
        kind < 4,
    ensures
        r == wants(mask, kind as int),
{
    match kind {
        0 => mask % 2 == 1,
        1 => mask / 2 % 2 == 1,
        2 => mask / 4 % 2 == 1,
        _ => mask / 8 % 2 == 1,
    }
}

/// `db` after the first `n` families of a mask were stepped on a card.
pub open spec fn mask_stepped(e: Env, db: Db, card_id: u32, mask: u8, t: u64, up: bool, n: nat) -> Db
    decreases n,
{
    if n == 0 {
        db
    } else {
        let before = mask_stepped(e, db, card_id, mask, t, up, (n - 1) as nat);
        if wants(mask, n - 1) {
            cards::held(e, before, card_id, t, field_of((n - 1) as u8)->0, up)
        } else {
            before
        }
    }
}

/// Take or give back every hold of a mask.
fn apply_hold_mask(e: &Env, tb: &mut Tables, card_id: u32, mask: u8, time_ms: u64, acquire: bool)
    requires
        e.wf(),
    ensures
        final(tb)@ == mask_stepped(*e, old(tb)@, card_id, mask, time_ms, acquire, 4),
{
    let ghost d = tb@;
    let mut kind: u8 = 0;
    while kind < 4
        invariant
            kind <= 4,
            e.wf(),
            tb@ == mask_stepped(*e, d, card_id, mask, time_ms, acquire, kind as nat),
        decreases 4 - kind,
    {
        if has_kind(mask, kind) {
            let _ = dispatch_hold(e, tb, card_id, time_ms, kind, acquire);
        }
        kind = kind + 1;
    }
}

/// Why the holds of a mask are not available on a card.
pub open spec fn conflict(e: Env, db: Db, card_id: u32, mask: u8, now_ms: u64) -> Option<ActionError> {
    let flags = match history::prior_at(db.cards, card_id, now_ms) {
        Some(c) => c.flags,
        None => 0,
    };
    let exclusive = model::hold_value(e.layout, flags, HoldField::SlotClaim);
    let shared = model::hold_value(e.layout, flags, HoldField::SlotBorrow);
    if wants(mask, 1) && (exclusive > 0 || shared > 0) {
        Some(ActionError::Unavailable { card_id, exclusive, shared })
    } else if wants(mask, 2) && exclusive > 0 {
        Some(ActionError::ExclusivelyHeld { card_id })
    } else {
        None
    }
}

/// Reject an exclusive hold on a held card, and a shared one on a card that is
/// held exclusively.
fn check_hold_available(e: &Env, tb: &Tables, card_id: u32, mask: u8, now_ms: u64) -> (err: Option<
    ActionError,
>)
    requires
        e.wf(),
    ensures
        err == conflict(*e, tb@, card_id, mask, now_ms),
{
    let flags: u32 = match cards::prior_at(tb, card_id, now_ms) {
        Some(c) => c.flags,
        None => 0,
    };
    let exclusive: u32 = cards::slot_claim_count(e, flags);
    let shared: u32 = cards::slot_borrow_count(e, flags);
    if has_kind(mask, 1) && (exclusive > 0 || shared > 0) {
        return Some(ActionError::Unavailable { card_id, exclusive, shared });
    }
    if has_kind(mask, 2) && exclusive > 0 {
        return Some(ActionError::ExclusivelyHeld { card_id });
    }
    None
}

// ---- running steps -------------------------------------------------
/// Outcome of steps `0..n` from `db` on; the first error ends them.
pub open spec fn run(step: spec_fn(int, Db) -> (Db, Result<(), ActionError>), db: Db, n: nat) -> (
    Db,
    Result<(), ActionError>,
)
    decreases n,
{
    if n == 0 {
        (db, Ok(()))
    } else {
        let before = run(step, db, (n - 1) as nat);
        if before.1 is Err {
            before
        } else {
            step(n - 1, before.0)
        }
    }
}

proof fn lemma_run_stops(
    step: spec_fn(int, Db) -> (Db, Result<(), ActionError>),
    db: Db,
    m: nat,
    n: nat,
)
    requires
        m <= n,
        run(step, db, m).1 is Err,
    ensures
        run(step, db, n) == run(step, db, m),
    decreases n - m,
{
    if m < n {
        lemma_run_stops(step, db, m, (n - 1) as nat);
    }
}

/// Outcome of steps that follow an earlier outcome.
pub open spec fn carried_on(
    before: (Db, Result<(), ActionError>),
    step: spec_fn(int, Db) -> (Db, Result<(), ActionError>),
    n: nat,
) -> (Db, Result<(), ActionError>) {
    if before.1 is Err {
        before
    } else {
        run(step, before.0, n)
    }
}

// ---- bound cards ---------------------------------------------------
/// The mask of bound card `i`; none where the list is shorter.
pub open spec fn mask_of(masks: Seq<u8>, i: int) -> u8 {
    if i < masks.len() {
        masks[i]
    } else {
        0
    }
}

fn get_mask(masks: &Vec<u8>, i: usize) -> (m: u8)
    ensures
        m == mask_of(masks@, i as int),
{
    if i < masks.len() {
        masks[i]
    } else {
        0
    }
}

/// The check of bound card `i`.
pub open spec fn check_step(e: Env, now_ms: u64, ids: Seq<u32>, masks: Seq<u8>) -> spec_fn(
    int,
    Db,
) -> (Db, Result<(), ActionError>) {
    |i: int, db: Db|
        match conflict(e, db, ids[i], mask_of(masks, i), now_ms) {
            Some(err) => (db, Err(err)),
            None => (db, Ok(())),
        }
}

fn check_all(e: &Env, tb: &Tables, now_ms: u64, ids: &Vec<u32>, masks: &Vec<u8>) -> (r: Result<
    (),
    ActionError,
>)
    requires
        e.wf(),
    ensures
        (tb@, r) == run(check_step(*e, now_ms, ids@, masks@), tb@, ids.len() as nat),
{
    let ghost step = check_step(*e, now_ms, ids@, masks@);
    let mut i: usize = 0;
    while i < ids.len()
        invariant
            i <= ids.len(),
            e.wf(),
            step == check_step(*e, now_ms, ids@, masks@),
            (tb@, Ok::<(), ActionError>(())) == run(step, tb@, i as nat),
        decreases ids.len() - i,
    {
        let mask: u8 = get_mask(masks, i);
        if let Some(err) = check_hold_available(e, tb, ids[i], mask, now_ms) {
            proof {
                lemma_run_stops(step, tb@, (i + 1) as nat, ids.len() as nat);
            }
            return Err(err);
        }
        i = i + 1;
    }
    Ok(())
}

/// A bound card whose action is over: its position is no longer asserted.
pub open spec fn finalized(e: Env) -> spec_fn(Card) -> Card {
    |c: Card| Card { flags: c.flags & !(e.state.pos_need | e.state.pos_want), ..c }
}

/// Outcome of an edit of the row of a card in force at `t`.
pub open spec fn edit_outcome(
    e: Env,
    db: Db,
    card_id: u32,
    t: u64,
    f: spec_fn(Card) -> Card,
) -> (Db, Result<(), ActionError>) {
    if history::prior_at(db.cards, card_id, t) is None {
        (db, Err(ActionError::CardNotFound { card_id }))
    } else {
        (cards::edited(e, db, card_id, t, f), Ok(()))
    }
}

/// Clear the position bits of a bound card at `time_ms`.
fn finalize_at(e: &Env, tb: &mut Tables, card_id: u32, time_ms: u64) -> (r: Result<(), ActionError>)
    ensures
        (final(tb)@, r) == edit_outcome(*e, old(tb)@, card_id, time_ms, finalized(*e)),
{
    match cards::prior_at(tb, card_id, time_ms) {
        None => Err(ActionError::CardNotFound { card_id }),
        Some(found) => {
            let mut c = found;
            c.flags = found.flags & !(e.state.pos_need | e.state.pos_want);
            let _ = cards::write_at(e, tb, c, time_ms);
            Ok(())
        },
    }
}

/// Bound card `i`: its holds from now on, given back at completion, when its
/// position is released too.
pub open spec fn bind_step(
    e: Env,
    now_ms: u64,
    completion_ms: u64,
    ids: Seq<u32>,
    masks: Seq<u8>,
) -> spec_fn(int, Db) -> (Db, Result<(), ActionError>) {
    |i: int, db: Db|
        {
            let mask = mask_of(masks, i);
            let taken = mask_stepped(e, db, ids[i], mask, now_ms, true, 4);
            let back = mask_stepped(e, taken, ids[i], mask, completion_ms, false, 4);
            edit_outcome(e, back, ids[i], completion_ms, finalized(e))
        }
}

fn bind_all(
    e: &Env,
    tb: &mut Tables,
    now_ms: u64,
    completion_ms: u64,
    ids: &Vec<u32>,
    masks: &Vec<u8>,
) -> (r: Result<(), ActionError>)
    requires
        e.wf(),
    ensures
        (final(tb)@, r) == run(
            bind_step(*e, now_ms, completion_ms, ids@, masks@),
            old(tb)@,
            ids.len() as nat,
        ),
{
    let ghost step = bind_step(*e, now_ms, completion_ms, ids@, masks@);
    let ghost d = tb@;
    let mut i: usize = 0;
    while i < ids.len()
        invariant
            i <= ids.len(),
            e.wf(),
            d == old(tb)@,
            step == bind_step(*e, now_ms, completion_ms, ids@, masks@),
            (tb@, Ok::<(), ActionError>(())) == run(step, d, i as nat),
        decreases ids.len() - i,
    {
        let mask: u8 = get_mask(masks, i);
        apply_hold_mask(e, tb, ids[i], mask, now_ms, true);
        apply_hold_mask(e, tb, ids[i], mask, completion_ms, false);
        match finalize_at(e, tb, ids[i], completion_ms) {
            Err(err) => {
                proof {
                    lemma_run_stops(step, d, (i + 1) as nat, ids.len() as nat);
                }
                return Err(err);
            },
            Ok(u) => {
                assert(u == ());
            },
        }
        i = i + 1;
    }
    Ok(())
}

// ---- effects -------------------------------------------------------
/// A destroyed card.
pub open spec fn died(e: Env) -> spec_fn(Card) -> Card {
    |c: Card| Card { flags: c.flags | e.state.dead, ..c }
}

/// Destroying card `i`.
pub open spec fn destroy_step(e: Env, t: u64, ids: Seq<u32>) -> spec_fn(int, Db) -> (
    Db,
    Result<(), ActionError>,
) {
    |i: int, db: Db| edit_outcome(e, db, ids[i], t, died(e))
}

fn destroy_all(e: &Env, tb: &mut Tables, time_ms: u64, ids: &Vec<u32>) -> (r: Result<(), ActionError>)
    ensures
        (final(tb)@, r) == run(destroy_step(*e, time_ms, ids@), old(tb)@, ids.len() as nat),
{
    let ghost step = destroy_step(*e, time_ms, ids@);
    let ghost d = tb@;
    let mut i: usize = 0;
    while i < ids.len()
        invariant
            i <= ids.len(),
            d == old(tb)@,
            step == destroy_step(*e, time_ms, ids@),
            (tb@, Ok::<(), ActionError>(())) == run(step, d, i as nat),
        decreases ids.len() - i,
    {
        match cards::prior_at(tb, ids[i], time_ms) {
            None => {
                proof {
                    lemma_run_stops(step, d, (i + 1) as nat, ids.len() as nat);
                }
                return Err(ActionError::CardNotFound { card_id: ids[i] });
            },
            Some(found) => {
                let mut c = found;
                c.flags = found.flags | e.state.dead;
                let _ = cards::write_at(e, tb, c, time_ms);
            },
        }
        i = i + 1;
    }
    Ok(())
}

/// The cards that an action creates, as parallel lists.
pub struct Creations {
    pub defs: Vec<u16>,
    pub surfaces: Vec<u8>,
    pub macro_zones: Vec<u64>,
    pub owners: Vec<u32>,
    /// Initial stocks; 0 where the list is shorter.
    pub stocks: Vec<u32>,
}

impl Creations {
    /// Every created card has a surface, a zone and an owner.
    pub open spec fn wf(self) -> bool {
        &&& self.surfaces.len() >= self.defs.len()
        &&& self.macro_zones.len() >= self.defs.len()
        &&& self.owners.len() >= self.defs.len()
    }
}

/// Creating card `i`, on the first cell of its zone.
pub open spec fn create_step(e: Env, t: u64, c: Creations) -> spec_fn(int, Db) -> (
    Db,
    Result<(), ActionError>,
) {
    |i: int, db: Db|
        (
            cards::after_write(
                e,
                cards::id_taken(db),
                cards::fresh_card(
                    cards::next_id(db),
                    packed::on_surface(c.macro_zones@[i], c.surfaces@[i]),
                    Micro::Loose { local_q: 0, local_r: 0, x: 0, y: 0 },
                    c.owners@[i],
                    c.defs@[i],
                    0,
                    if i < c.stocks@.len() {
                        c.stocks@[i] as u64
                    } else {
                        0
                    },
                ),
                t,
            ),
            Ok(()),
        )
}

fn create_all(e: &Env, tb: &mut Tables, time_ms: u64, c: &Creations)
    requires
        c.wf(),
    ensures
        (final(tb)@, Ok::<(), ActionError>(())) == run(
            create_step(*e, time_ms, *c),
            old(tb)@,
            c.defs.len() as nat,
        ),
{
    let ghost step = create_step(*e, time_ms, *c);
    let ghost d = tb@;
    let mut i: usize = 0;
    while i < c.defs.len()
        invariant
            i <= c.defs.len(),
            c.wf(),
            step == create_step(*e, time_ms, *c),
            (tb@, Ok::<(), ActionError>(())) == run(step, d, i as nat),
        decreases c.defs.len() - i,
    {
        let stock: u64 = if i < c.stocks.len() {
            c.stocks[i] as u64
        } else {
            0
        };
        let id: u32 = cards::next_card_id(tb);
        let _ = cards::create_at(
            e,
            tb,
            id,
            time_ms,
            packed::with_surface(c.macro_zones[i], c.surfaces[i]),
            Micro::snap(0, 0),
            c.owners[i],
            c.defs[i],
            0,
            stock,
        );
        i = i + 1;
    }
}

/// Outcome of setting a blueprint's discovery bit.
pub open spec fn unlocked(db: Db, card_id: u32, blueprint_id: u16) -> (Db, Result<(), ActionError>) {
    if blueprint_id == 0 || blueprint_id > 64 {
        (db, Err(ActionError::BlueprintOutOfRange { blueprint_id }))
    } else {
        match soul_rows::private_index(db.soul_privates, card_id) {
            None => (db, Err(ActionError::NoSoulPrivate { card_id })),
            Some(i) => {
                let row = db.soul_privates[i];
                (
                    Db {
                        soul_privates: db.soul_privates.update(
                            i,
                            SoulPrivate {
                                blueprints_0: row.blueprints_0 | gate_api::blueprint_bit(
                                    blueprint_id,
                                ),
                                ..row
                            },
                        ),
                        ..db
                    },
                    Ok(()),
                )
            },
        }
    }
}

/// Set a blueprint's discovery bit; a bit that is already set stays set.
fn unlock_blueprint_at(tb: &mut Tables, target_card_id: u32, blueprint_id: u16) -> (r: Result<
    (),
    ActionError,
>)
    ensures
        (final(tb)@, r) == unlocked(old(tb)@, target_card_id, blueprint_id),
{
    if blueprint_id == 0 || blueprint_id > 64 {
        return Err(ActionError::BlueprintOutOfRange { blueprint_id });
    }
    let bit: u64 = 1u64 << ((blueprint_id - 1) as u64);
    match soul_rows::private_position(&tb.soul_privates, target_card_id) {
        None => Err(ActionError::NoSoulPrivate { card_id: target_card_id }),
        Some(i) => {
            let mut row = tb.soul_privates[i];
            row.blueprints_0 = row.blueprints_0 | bit;
            tb.soul_privates.set(i, row);
            Ok(())
        },
    }
}

/// Unlocking blueprint `i`.
pub open spec fn unlock_step(targets: Seq<u32>, blueprints: Seq<u16>) -> spec_fn(int, Db) -> (
    Db,
    Result<(), ActionError>,
) {
    |i: int, db: Db| unlocked(db, targets[i], blueprints[i])
}

fn unlock_all(tb: &mut Tables, targets: &Vec<u32>, blueprints: &Vec<u16>) -> (r: Result<
    (),
    ActionError,
>)
    requires
        blueprints.len() >= targets.len(),
    ensures
        (final(tb)@, r) == run(
            unlock_step(targets@, blueprints@),
            old(tb)@,
            targets.len() as nat,
        ),
{
    let ghost step = unlock_step(targets@, blueprints@);
    let ghost d = tb@;
    let mut i: usize = 0;
    while i < targets.len()
        invariant
            i <= targets.len(),
            blueprints.len() >= targets.len(),
            d == old(tb)@,
            step == unlock_step(targets@, blueprints@),
            (tb@, Ok::<(), ActionError>(())) == run(step, d, i as nat),
        decreases targets.len() - i,
    {
        match unlock_blueprint_at(tb, targets[i], blueprints[i]) {
            Err(err) => {
                proof {
                    lemma_run_stops(step, d, (i + 1) as nat, targets.len() as nat);
                }
                return Err(err);
            },
            Ok(u) => {
                assert(u == ());
            },
        }
        i = i + 1;
    }
    Ok(())
}

/// The counters that an action steps, as parallel lists.
pub struct StatSteps {
    pub souls: Vec<u32>,
    pub fields: Vec<u8>,
    pub bytes: Vec<u8>,
    pub deltas: Vec<i8>,
}

impl StatSteps {
    pub open spec fn wf(self) -> bool {
        &&& self.fields.len() >= self.souls.len()
        &&& self.bytes.len() >= self.souls.len()
        &&& self.deltas.len() >= self.souls.len()
    }
}

/// Stepping counter `i`.
pub open spec fn stat_step(t: u64, s: StatSteps) -> spec_fn(int, Db) -> (
    Db,
    Result<(), ActionError>,
) {
    |i: int, db: Db|
        (
            souls::stat_applied(db, s.souls@[i], s.fields@[i], s.bytes@[i], s.deltas@[i], t),
            Ok(()),
        )
}

fn step_stats(tb: &mut Tables, time_ms: u64, s: &StatSteps)
    requires
        s.wf(),
    ensures
        (final(tb)@, Ok::<(), ActionError>(())) == run(
            stat_step(time_ms, *s),
            old(tb)@,
            s.souls.len() as nat,
        ),
{
    let ghost step = stat_step(time_ms, *s);
    let ghost d = tb@;
    let mut i: usize = 0;
    while i < s.souls.len()
        invariant
            i <= s.souls.len(),
            s.wf(),
            step == stat_step(time_ms, *s),
            (tb@, Ok::<(), ActionError>(())) == run(step, d, i as nat),
        decreases s.souls.len() - i,
    {
        souls::apply_stat(tb, s.souls[i], s.fields[i], s.bytes[i], s.deltas[i], time_ms);
        i = i + 1;
    }
}

/// A card with a new stock word.
pub open spec fn restocked(value: u32) -> spec_fn(Card) -> Card {
    |c: Card| Card { stock: value as u64, ..c }
}

/// Writing stock `i`.
pub open spec fn stock_step(e: Env, t: u64, ids: Seq<u32>, values: Seq<u32>) -> spec_fn(
    int,
    Db,
) -> (Db, Result<(), ActionError>) {
    |i: int, db: Db| edit_outcome(e, db, ids[i], t, restocked(values[i]))
}

fn stock_all(e: &Env, tb: &mut Tables, time_ms: u64, ids: &Vec<u32>, values: &Vec<u32>) -> (r: Result<
    (),
    ActionError,
>)
    requires
        values.len() >= ids.len(),
    ensures
        (final(tb)@, r) == run(
            stock_step(*e, time_ms, ids@, values@),
            old(tb)@,
            ids.len() as nat,
        ),
{
    let ghost step = stock_step(*e, time_ms, ids@, values@);
    let ghost d = tb@;
    let mut i: usize = 0;
    while i < ids.len()
        invariant
            i <= ids.len(),
            values.len() >= ids.len(),
            d == old(tb)@,
            step == stock_step(*e, time_ms, ids@, values@),
            (tb@, Ok::<(), ActionError>(())) == run(step, d, i as nat),
        decreases ids.len() - i,
    {
        match cards::prior_at(tb, ids[i], time_ms) {
            None => {
                proof {
                    lemma_run_stops(step, d, (i + 1) as nat, ids.len() as nat);
                }
                return Err(ActionError::CardNotFound { card_id: ids[i] });
            },
            Some(found) => {
                let mut c = found;
                c.stock = values[i] as u64;
                let _ = cards::write_at(e, tb, c, time_ms);
            },
        }
        i = i + 1;
    }
    Ok(())
}

/// New positions for the members of a destroyed root, as parallel lists; a
/// `stack_state` is the placement byte.
pub struct Reroots {
    pub ids: Vec<u32>,
    pub macro_zones: Vec<u64>,
    pub micro_locations: Vec<u32>,
    pub stack_states: Vec<u8>,
}

impl Reroots {
    pub open spec fn wf(self) -> bool {
        &&& self.macro_zones.len() >= self.ids.len()
        &&& self.micro_locations.len() >= self.ids.len()
        &&& self.stack_states.len() >= self.ids.len()
    }
}

/// Repositioning member `i`; one that vanished is passed over.
pub open spec fn reroot_step(e: Env, t: u64, m: Reroots) -> spec_fn(int, Db) -> (
    Db,
    Result<(), ActionError>,
) {
    |i: int, db: Db|
        (
            cards::edited(
                e,
                db,
                m.ids@[i],
                t,
                place::put(
                    m.macro_zones@[i],
                    model::decoded(m.micro_locations@[i], m.stack_states@[i] as u32),
                ),
            ),
            Ok(()),
        )
}

fn reroot_all(e: &Env, tb: &mut Tables, time_ms: u64, m: &Reroots)
    requires
        m.wf(),
    ensures
        (final(tb)@, Ok::<(), ActionError>(())) == run(
            reroot_step(*e, time_ms, *m),
            old(tb)@,
            m.ids.len() as nat,
        ),
{
    let ghost step = reroot_step(*e, time_ms, *m);
    let ghost d = tb@;
    let mut i: usize = 0;
    while i < m.ids.len()
        invariant
            i <= m.ids.len(),
            m.wf(),
            step == reroot_step(*e, time_ms, *m),
            (tb@, Ok::<(), ActionError>(())) == run(step, d, i as nat),
        decreases m.ids.len() - i,
    {
        let micro: Micro = Micro::of(m.micro_locations[i], m.stack_states[i] as u32);
        if let Some(found) = cards::prior_at(tb, m.ids[i], time_ms) {
            let mut c = found;
            c.macro_zone = m.macro_zones[i];
            micro.place(&mut c);
            let _ = cards::write_at(e, tb, c, time_ms);
        }
        i = i + 1;
    }
}

// ---- whole actions -------------------------------------------------
/// The cards side of a validated action.
pub struct CardAction {
    pub now_ms: u64,
    pub completion_ms: u64,
    pub bound_ids: Vec<u32>,
    /// Hold masks of the bound cards; none where the list is shorter.
    pub bound_masks: Vec<u8>,
    pub destroy_ids: Vec<u32>,
    pub creations: Creations,
    pub unlock_targets: Vec<u32>,
    pub unlock_blueprints: Vec<u16>,
    pub stats: StatSteps,
    pub stock_card_ids: Vec<u32>,
    pub stock_values: Vec<u32>,
    pub reroots: Reroots,
}

impl CardAction {
    /// The parallel lists are long enough.
    pub open spec fn wf(self) -> bool {
        &&& self.creations.wf()
        &&& self.unlock_blueprints.len() >= self.unlock_targets.len()
        &&& self.stats.wf()
        &&& self.stock_values.len() >= self.stock_card_ids.len()
        &&& self.reroots.wf()
    }
}

/// Outcome of the cards side of an action: checks, bound cards, destructions,
/// creations, unlocks, counters, stocks and repositions, in this order.
pub open spec fn action_applied(e: Env, db: Db, a: CardAction) -> (Db, Result<(), ActionError>) {
    let t = a.completion_ms;
    let checked = run(
        check_step(e, a.now_ms, a.bound_ids@, a.bound_masks@),
        db,
        a.bound_ids@.len(),
    );
    let bound = carried_on(
        checked,
        bind_step(e, a.now_ms, t, a.bound_ids@, a.bound_masks@),
        a.bound_ids@.len(),
    );
    let destroyed = carried_on(bound, destroy_step(e, t, a.destroy_ids@), a.destroy_ids@.len());
    let created = carried_on(
        destroyed,
        create_step(e, t, a.creations),
        a.creations.defs@.len(),
    );
    let told = carried_on(
        created,
        unlock_step(a.unlock_targets@, a.unlock_blueprints@),
        a.unlock_targets@.len(),
    );
    let counted = carried_on(told, stat_step(t, a.stats), a.stats.souls@.len());
    let stocked = carried_on(
        counted,
        stock_step(e, t, a.stock_card_ids@, a.stock_values@),
        a.stock_card_ids@.len(),
    );
    carried_on(stocked, reroot_step(e, t, a.reroots), a.reroots.ids@.len())
}

fn write_action(e: &Env, tb: &mut Tables, a: &CardAction) -> (r: Result<(), ActionError>)
    requires
        e.wf(),
        a.wf(),
    ensures
        (final(tb)@, r) == action_applied(*e, old(tb)@, *a),
{
    let t: u64 = a.completion_ms;
    match check_all(e, tb, a.now_ms, &a.bound_ids, &a.bound_masks) {
        Err(err) => {
            return Err(err);
        },
        Ok(u) => {
            assert(u == ());
        },
    }
    match bind_all(e, tb, a.now_ms, t, &a.bound_ids, &a.bound_masks) {
        Err(err) => {
            return Err(err);
        },
        Ok(u) => {
            assert(u == ());
        },
    }
    match destroy_all(e, tb, t, &a.destroy_ids) {
        Err(err) => {
            return Err(err);
        },
        Ok(u) => {
            assert(u == ());
        },
    }
    create_all(e, tb, t, &a.creations);
    match unlock_all(tb, &a.unlock_targets, &a.unlock_blueprints) {
        Err(err) => {
            return Err(err);
        },
        Ok(u) => {
            assert(u == ());
        },
    }
    step_stats(tb, t, &a.stats);
    match stock_all(e, tb, t, &a.stock_card_ids, &a.stock_values) {
        Err(err) => {
            return Err(err);
        },
        Ok(u) => {
            assert(u == ());
        },
    }
    reroot_all(e, tb, t, &a.reroots);
    Ok(())
}

/// Write the cards side of a validated action in one transaction: for every bound
/// card its holds from now until completion, and at completion all effects. A
/// hold that is taken already refuses the whole action.
pub fn apply_action(
    e: &Env,
    tb: &mut Tables,
    now_ms: u64,
    completion_ms: u64,
    bound_ids: Vec<u32>,
    bound_masks: Vec<u8>,
    destroy_ids: Vec<u32>,
    create_defs: Vec<u16>,
    create_surfaces: Vec<u8>,
    create_macro_zones: Vec<u64>,
    create_owners: Vec<u32>,
    create_stocks: Vec<u32>,
    unlock_targets: Vec<u32>,
    unlock_blueprints: Vec<u16>,
    stat_souls: Vec<u32>,
    stat_fields: Vec<u8>,
    stat_bytes: Vec<u8>,
    stat_deltas: Vec<i8>,
    stock_card_ids: Vec<u32>,
    stock_values: Vec<u32>,
    reroot_ids: Vec<u32>,
    reroot_macro_zones: Vec<u64>,
    reroot_micro_locations: Vec<u32>,
    reroot_stack_states: Vec<u8>,
) -> (r: Result<(), ActionError>)
    requires
        e.wf(),
        create_surfaces.len() >= create_defs.len(),
        create_macro_zones.len() >= create_defs.len(),
        create_owners.len() >= create_defs.len(),
        unlock_blueprints.len() >= unlock_targets.len(),
        stat_fields.len() >= stat_souls.len(),
        stat_bytes.len() >= stat_souls.len(),
        stat_deltas.len() >= stat_souls.len(),
        stock_values.len() >= stock_card_ids.len(),
        reroot_macro_zones.len() >= reroot_ids.len(),
        reroot_micro_locations.len() >= reroot_ids.len(),
        reroot_stack_states.len() >= reroot_ids.len(),
    ensures
        (final(tb)@, r) == action_applied(
            *e,
            old(tb)@,
            (CardAction {
                now_ms,
                completion_ms,
                bound_ids,
                bound_masks,
                destroy_ids,
                creations: Creations {
                    defs: create_defs,
                    surfaces: create_surfaces,
                    macro_zones: create_macro_zones,
                    owners: create_owners,
                    stocks: create_stocks,
                },
                unlock_targets,
                unlock_blueprints,
                stats: StatSteps {
                    souls: stat_souls,
                    fields: stat_fields,
                    bytes: stat_bytes,
                    deltas: stat_deltas,
                },
                stock_card_ids,
                stock_values,
                reroots: Reroots {
                    ids: reroot_ids,
                    macro_zones: reroot_macro_zones,
                    micro_locations: reroot_micro_locations,
                    stack_states: reroot_stack_states,
                },
            }),
        ),
{
    let a = CardAction {
        now_ms,
        completion_ms,
        bound_ids,
        bound_masks,
        destroy_ids,
        creations: Creations {
            defs: create_defs,
            surfaces: create_surfaces,
            macro_zones: create_macro_zones,
            owners: create_owners,
            stocks: create_stocks,
        },
        unlock_targets,
        unlock_blueprints,
        stats: StatSteps {
            souls: stat_souls,
            fields: stat_fields,
            bytes: stat_bytes,
            deltas: stat_deltas,
        },
        stock_card_ids,
        stock_values,
        reroots: Reroots {
            ids: reroot_ids,
            macro_zones: reroot_macro_zones,
            micro_locations: reroot_micro_locations,
            stack_states: reroot_stack_states,
        },
    };
    write_action(e, tb, &a)
}

// ---- tile actions --------------------------------------------------
fn tile_result(r: Result<(), TileError>) -> (out: Result<(), ActionError>)
    ensures
        out == as_action_result(r),
{
    match r {
        Ok(()) => Ok(()),
        Err(err) => Err(ActionError::Tile(err)),
    }
}

pub open spec fn as_action_result(r: Result<(), TileError>) -> Result<(), ActionError> {
    match r {
        Ok(()) => Ok(()),
        Err(err) => Err(ActionError::Tile(err)),
    }
}

/// A tile cell.
#[derive(Clone, Copy, Debug, PartialEq, Eq, Structural)]
pub struct Cell {
    pub surface: u8,
    pub macro_zone: u64,
    pub q: u8,
    pub r: u8,
}

/// Taking family `k` of a mask on a tile.
pub open spec fn tile_take_step(e: Env, t: u64, c: Cell, mask: u8) -> spec_fn(int, Db) -> (
    Db,
    Result<(), ActionError>,
) {
    |k: int, db: Db|
        if wants(mask, k) {
            let a = tiles::hold_acquired(
                e,
                db,
                c.surface,
                c.macro_zone,
                c.q,
                c.r,
                field_of(k as u8)->0,
                t,
            );
            (a.0, as_action_result(a.1))
        } else {
            (db, Ok(()))
        }
}

/// Giving family `k` of a mask on a tile back.
pub open spec fn tile_give_step(e: Env, t: u64, c: Cell, mask: u8) -> spec_fn(int, Db) -> (
    Db,
    Result<(), ActionError>,
) {
    |k: int, db: Db|
        if wants(mask, k) {
            (
                tiles::hold_released(
                    e,
                    db,
                    c.surface,
                    c.macro_zone,
                    c.q,
                    c.r,
                    field_of(k as u8)->0,
                    t,
                ),
                Ok(()),
            )
        } else {
            (db, Ok(()))
        }
}

/// Stock effect `i` on a tile.
pub open spec fn tile_stock_step(
    e: Env,
    t: u64,
    c: Cell,
    slots: Seq<u8>,
    ops: Seq<u8>,
    deltas: Seq<u8>,
) -> spec_fn(int, Db) -> (Db, Result<(), ActionError>) {
    |i: int, db: Db|
        {
            let p = tiles::promotion(e, db, c.surface, c.macro_zone, c.q, c.r, t);
            match p.1 {
                Err(err) => (p.0, Err(ActionError::Tile(err))),
                Ok(tile) => match stock_ops::stock_after(
                    model::stock_value(tile.stock, slots[i] as int),
                    ops[i],
                    deltas[i],
                ) {
                    None => (p.0, Err(ActionError::Tile(TileError::UnknownOp { op: ops[i] }))),
                    Some(next) => (
                        cards::edited(
                            e,
                            p.0,
                            tile.card_id,
                            t,
                            tiles::restocked(slots[i] as int, next),
                        ),
                        Ok(()),
                    ),
                },
            }
        }
}

fn take_tile_holds(e: &Env, tb: &mut Tables, time_ms: u64, c: &Cell, mask: u8) -> (r: Result<
    (),
    ActionError,
>)
    requires
        e.wf(),
    ensures
        (final(tb)@, r) == run(tile_take_step(*e, time_ms, *c, mask), old(tb)@, 4),
{
    let ghost step = tile_take_step(*e, time_ms, *c, mask);
    let ghost d = tb@;
    let mut k: u8 = 0;
    while k < 4
        invariant
            k <= 4,
            e.wf(),
            d == old(tb)@,
            step == tile_take_step(*e, time_ms, *c, mask),
            (tb@, Ok::<(), ActionError>(())) == run(step, d, k as nat),
        decreases 4 - k,
    {
        if has_kind(mask, k) {
            let f: HoldField = match hold_field(k) {
                Ok(f) => f,
                Err(err) => {
                    return Err(err);
                },
            };
            let taken = tiles::acquire_tile_hold(
                e,
                tb,
                c.surface,
                c.macro_zone,
                c.q,
                c.r,
                f,
                time_ms,
            );
            match tile_result(taken) {
                Err(err) => {
                    proof {
                        lemma_run_stops(step, d, (k + 1) as nat, 4);
                    }
                    return Err(err);
                },
                Ok(u) => {
                    assert(u == ());
                },
            }
        }
        k = k + 1;
    }
    Ok(())
}

fn give_tile_holds(e: &Env, tb: &mut Tables, time_ms: u64, c: &Cell, mask: u8)
    requires
        e.wf(),
    ensures
        (final(tb)@, Ok::<(), ActionError>(())) == run(
            tile_give_step(*e, time_ms, *c, mask),
            old(tb)@,
            4,
        ),
{
    let ghost step = tile_give_step(*e, time_ms, *c, mask);
    let ghost d = tb@;
    let mut k: u8 = 0;
    while k < 4
        invariant
            k <= 4,
            e.wf(),
            step == tile_give_step(*e, time_ms, *c, mask),
            (tb@, Ok::<(), ActionError>(())) == run(step, d, k as nat),
        decreases 4 - k,
    {
        if has_kind(mask, k) {
            if let Ok(f) = hold_field(k) {
                tiles::release_tile_hold(
                    e,
                    tb,
                    c.surface,
                    c.macro_zone,
                    c.q,
                    c.r,
                    f,
                    time_ms,
                );
            }
        }
        k = k + 1;
    }
}

fn stock_tile(
    e: &Env,
    tb: &mut Tables,
    time_ms: u64,
    c: &Cell,
    slots: &Vec<u8>,
    ops: &Vec<u8>,
    deltas: &Vec<u8>,
) -> (r: Result<(), ActionError>)
    requires
        ops.len() >= slots.len(),
        deltas.len() >= slots.len(),
    ensures
        (final(tb)@, r) == run(
            tile_stock_step(*e, time_ms, *c, slots@, ops@, deltas@),
            old(tb)@,
            slots.len() as nat,
        ),
{
    let ghost step = tile_stock_step(*e, time_ms, *c, slots@, ops@, deltas@);
    let ghost d = tb@;
    let mut i: usize = 0;
    while i < slots.len()
        invariant
            i <= slots.len(),
            ops.len() >= slots.len(),
            deltas.len() >= slots.len(),
            d == old(tb)@,
            step == tile_stock_step(*e, time_ms, *c, slots@, ops@, deltas@),
            (tb@, Ok::<(), ActionError>(())) == run(step, d, i as nat),
        decreases slots.len() - i,
    {
        let ghost before = tb@;
        assert(run(step, d, (i + 1) as nat) == step(i as int, before));
        match tiles::find_or_create_tile_card(e, tb, c.surface, c.macro_zone, c.q, c.r, time_ms) {
            Err(err) => {
                proof {
                    lemma_run_stops(step, d, (i + 1) as nat, slots.len() as nat);
                }
                return Err(ActionError::Tile(err));
            },
            Ok(tile) => {
                let slot: usize = slots[i] as usize;
                let current: u8 = model::stock(tile.stock, slot);
                match stock_ops::apply_stock_op(current, ops[i], deltas[i]) {
                    None => {
                        proof {
                            lemma_run_stops(step, d, (i + 1) as nat, slots.len() as nat);
                        }
                        return Err(ActionError::Tile(TileError::UnknownOp { op: ops[i] }));
                    },
                    Some(next) => {
                        let _ = tiles::set_tile_stock(e, tb, tile.card_id, time_ms, slot, next);
                    },
                }
            },
        }
        i = i + 1;
    }
    Ok(())
}

/// Outcome of the tile side of an action: the holds of the mask from now until
/// completion, and the stock effects at completion.
pub open spec fn tile_action_applied(
    e: Env,
    db: Db,
    now_ms: u64,
    completion_ms: u64,
    c: Cell,
    mask: u8,
    slots: Seq<u8>,
    ops: Seq<u8>,
    deltas: Seq<u8>,
) -> (Db, Result<(), ActionError>) {
    let taken = run(tile_take_step(e, now_ms, c, mask), db, 4);
    let given = carried_on(taken, tile_give_step(e, completion_ms, c, mask), 4);
    carried_on(
        given,
        tile_stock_step(e, completion_ms, c, slots, ops, deltas),
        slots.len(),
    )
}

/// Write the tile side of a validated action in one transaction. An exclusive
/// hold that is taken already refuses the whole action.
pub fn apply_action_tile(
    e: &Env,
    tb: &mut Tables,
    now_ms: u64,
    completion_ms: u64,
    surface: u8,
    macro_zone: u64,
    q: u8,
    r: u8,
    hold_mask: u8,
    stock_slots: &Vec<u8>,
    stock_ops: &Vec<u8>,
    stock_deltas: &Vec<u8>,
) -> (done: Result<(), ActionError>)
    requires
        e.wf(),
        stock_ops.len() >= stock_slots.len(),
        stock_deltas.len() >= stock_slots.len(),
    ensures
        (final(tb)@, done) == tile_action_applied(
            *e,
            old(tb)@,
            now_ms,
            completion_ms,
            (Cell { surface, macro_zone, q, r }),
            hold_mask,
            stock_slots@,
            stock_ops@,
            stock_deltas@,
        ),
{
    let c = Cell { surface, macro_zone, q, r };
    match take_tile_holds(e, tb, now_ms, &c, hold_mask) {
        Err(err) => {
            return Err(err);
        },
        Ok(u) => {
            assert(u == ());
        },
    }
    give_tile_holds(e, tb, completion_ms, &c, hold_mask);
    stock_tile(e, tb, completion_ms, &c, stock_slots, stock_ops, stock_deltas)
}

// ---- deployment ----------------------------------------------------
/// Seed, or overwrite, the identity of this deployment.
pub fn set_shard_identity(tb: &mut Tables, card_db: u8, shard: u16)
    ensures
        final(tb)@ == (Db {
            identity: Some(cards::ShardIdentity { id: 0, card_db, shard }),
            ..old(tb)@
        }),
{
    cards::set_identity(tb, card_db, shard);
}

} // verus!
