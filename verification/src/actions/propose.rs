//! Proposing an action: resolve its tile, verify it, stitch its chain, take its
//! holds and emit its completion.
use vstd::prelude::*;

use crate::actions::completion;
use crate::actions::completion::CommitError;
use crate::actions::plan;
use crate::actions::plan::ActionPlan;
use crate::actions::plan::HoldKinds;
use crate::actions::plan::PlanError;
use crate::actions::tape::HexLocation;
use crate::actions::tile_cards;
use crate::actions::verify;
use crate::actions::verify::BindError;
use crate::actions::verify::InputError;
use crate::actions::verify::SyntheticTile;
use crate::cards::cards;
use crate::cards::cards::Card;
use crate::cards::env::Env;
use crate::cards::env::HoldKind;
use crate::cards::gate_api;
use crate::cards::micro::Micro;
use crate::content;
use crate::content::Recipe;
use crate::content::SlotIterator;
use crate::packed;
use crate::pending_actions;
use crate::pending_actions::PendingAction;
use crate::players::lifecycle_pending;
use crate::players::lifecycle_pending::Blocked;
use crate::players::players;
use crate::players::players::ConnectionId;
use crate::players::players::PlayerError;
use crate::regions::cards::TileError;
use crate::regions::zones;
use crate::tables::Db;
use crate::tables::Tables;
use crate::time;
use crate::time::TimeDrift;

verus! {

/// Surfaces from this one on carry tile data in their zones.
pub const SYNTHETIC_HEX_MIN_SURFACE: u8 = 32;

/// Why a proposal is rejected.
#[derive(Clone, Copy, Debug, PartialEq, Eq, Structural)]
pub enum ProposeError {
    Caller(PlayerError),
    UnknownRecipe { recipe_id: u16 },
    BindingCount { expected: usize, actual: usize },
    Time(TimeDrift),
    /// An overdue action of the caller that the proposal does not touch.
    Blocked(Blocked),
    /// A tile is bound where no tile stands.
    NoTile,
    Promote(TileError),
    Input(InputError),
    Bind(BindError),
    /// The same proposal is already in flight.
    InFlight { dedup_key: u64 },
    Plan(PlanError),
    Commit(CommitError),
}

// ---- synthetic tiles -----------------------------------------------
/// A tile that stands in for a card, and where it stands.
pub open spec fn synthetic(e: Env, db: Db, surface: u8, macro_zone: u64, micro_location: u32, t: u64) -> Option<
    (SyntheticTile, HexLocation),
> {
    if surface < SYNTHETIC_HEX_MIN_SURFACE {
        None
    } else {
        let f = packed::micro_loose_fields(micro_location);
        let location = packed::on_surface(macro_zone, surface);
        match tile_cards::tile_view(e, db, location, f.0, f.1, t) {
            None => None,
            Some(v) => match zones::latest_on(db.zones, location) {
                None => None,
                Some(z) => Some(
                    (
                        (v.0, (v.1, v.2)),
                        HexLocation {
                            zone_id: z.zone_id,
                            macro_zone,
                            col: f.0,
                            row: f.1,
                            owner_id: z.owner_id,
                        },
                    ),
                ),
            },
        }
    }
}

/// Read the tile on the proposed cell.
pub fn derive_synthetic_hex(
    e: &Env,
    tb: &Tables,
    surface: u8,
    macro_zone: u64,
    micro_location: u32,
    now_ms: u64,
) -> (r: Option<(SyntheticTile, HexLocation)>)
    requires
        e.wf(),
    ensures
        r == synthetic(*e, tb@, surface, macro_zone, micro_location, now_ms),
{
    if surface < SYNTHETIC_HEX_MIN_SURFACE {
        return None;
    }
    let cell: (u8, u8) = packed::micro_loose_cell(micro_location);
    let location: u64 = packed::with_surface(macro_zone, surface);
    match tile_cards::tile_full_view(e, tb, location, cell.0, cell.1, now_ms) {
        None => None,
        Some(v) => match zones::latest_for(&tb.zones, location) {
            None => None,
            Some(z) => Some(
                (
                    (v.0, (v.1, v.2)),
                    HexLocation {
                        zone_id: z.zone_id,
                        macro_zone,
                        col: cell.0,
                        row: cell.1,
                        owner_id: z.owner_id,
                    },
                ),
            ),
        },
    }
}

/// A row of a top-level iterator over branch 0 that leaves its tile open.
pub open spec fn leaves_tile_open(it: SlotIterator, row: Seq<u32>) -> bool {
    it.parent@.len() == 0 && it.branch == 0 && row.len() > 0 && row[0] == 0
}

/// The first of the rows from `i` on that leaves its tile open.
pub open spec fn open_tile_row(its: Seq<SlotIterator>, bindings: Seq<Vec<u32>>, i: int) -> Option<
    int,
>
    decreases its.len() - i,
{
    if i >= its.len() {
        None
    } else if i < bindings.len() && leaves_tile_open(its[i], bindings[i]@) {
        Some(i)
    } else {
        open_tile_row(its, bindings, i + 1)
    }
}

fn find_open_tile_row(recipe: &Recipe, bindings: &Vec<Vec<u32>>) -> (found: Option<usize>)
    ensures
        match found {
            Some(i) => {
                &&& open_tile_row(recipe.iterators@, bindings@, 0) == Some(i as int)
                &&& i < bindings.len()
                &&& bindings@[i as int]@.len() > 0
            },
            None => open_tile_row(recipe.iterators@, bindings@, 0) is None,
        },
{
    let its = &recipe.iterators;
    let mut i: usize = 0;
    while i < its.len()
        invariant
            i <= its.len(),
            its@ == recipe.iterators@,
            open_tile_row(its@, bindings@, 0) == open_tile_row(its@, bindings@, i as int),
        decreases its.len() - i,
    {
        if i < bindings.len() && its[i].parent.len() == 0 && its[i].branch == 0 && bindings[i].len()
            > 0 && bindings[i][0] == 0 {
            return Some(i);
        }
        i = i + 1;
    }
    None
}

/// `out` is `bindings` with the first slot of row `i` bound to `card_id`.
pub open spec fn substituted(
    out: Seq<Vec<u32>>,
    bindings: Seq<Vec<u32>>,
    i: int,
    card_id: u32,
) -> bool {
    &&& out.len() == bindings.len()
    &&& forall|k: int|
        0 <= k < bindings.len() ==> (#[trigger] out[k])@ == if k == i {
            bindings[k]@.update(0, card_id)
        } else {
            bindings[k]@
        }
}

fn substitute(bindings: &Vec<Vec<u32>>, i: usize, card_id: u32) -> (out: Vec<Vec<u32>>)
    requires
        i < bindings.len(),
        bindings@[i as int]@.len() > 0,
    ensures
        substituted(out@, bindings@, i as int, card_id),
{
    let mut out: Vec<Vec<u32>> = Vec::new();
    let mut k: usize = 0;
    while k < bindings.len()
        invariant
            k <= bindings.len(),
            i < bindings.len(),
            bindings@[i as int]@.len() > 0,
            out.len() == k,
            forall|j: int|
                0 <= j < k ==> (#[trigger] out@[j])@ == if j == i {
                    bindings@[j]@.update(0, card_id)
                } else {
                    bindings@[j]@
                },
        decreases bindings.len() - k,
    {
        let mut row: Vec<u32> = Vec::new();
        let mut j: usize = 0;
        while j < bindings[k].len()
            invariant
                k < bindings.len(),
                j <= bindings@[k as int]@.len(),
                row@ == bindings@[k as int]@.take(j as int),
            decreases bindings@[k as int]@.len() - j,
        {
            row.push(bindings[k][j]);
            j = j + 1;
            assert(row@ =~= bindings@[k as int]@.take(j as int));
        }
        assert(row@ =~= bindings@[k as int]@);
        if k == i {
            row.set(0, card_id);
        }
        out.push(row);
        k = k + 1;
    }
    out
}

// ---- chain stitch --------------------------------------------------
pub open spec fn put_at(e: Env, location: u64, m: Micro) -> spec_fn(Card) -> Card {
    |c: Card| gate_api::repositioned(e, location, m, c)
}

fn put(e: &Env, tb: &mut Tables, card_id: u32, time_ms: u64, location: u64, m: Micro)
    requires
        e.wf(),
    ensures
        final(tb)@ == cards::edited(*e, old(tb)@, card_id, time_ms, put_at(*e, location, m)),
{
    if let Some(c) = cards::prior_at(tb, card_id, time_ms) {
        let _ = cards::write_at(e, tb, gate_api::reposition(e, location, m, c), time_ms);
    }
}

/// The member placement of the binding at `offset`.
pub open spec fn member_at(root: u32, branch: u8, offset: int) -> Micro {
    gate_api::member_of(root, branch, (offset % 256) as u8)
}

/// The database after stitching the first `n` bindings of a row to the root.
pub open spec fn row_stitched(
    e: Env,
    db: Db,
    root: u32,
    branch: u8,
    row: Seq<u32>,
    location: u64,
    t: u64,
    n: int,
) -> Db
    decreases n,
{
    if n <= 0 {
        db
    } else {
        let before = row_stitched(e, db, root, branch, row, location, t, n - 1);
        let id = row[n - 1];
        if id == 0 || id == root {
            before
        } else {
            cards::edited(e, before, id, t, put_at(e, location, member_at(root, branch, n - 1)))
        }
    }
}

/// The database after stitching the rows of the first `n` iterators. Nested rows
/// stay in the chains where they are.
pub open spec fn rows_stitched(
    e: Env,
    db: Db,
    r: Recipe,
    root: u32,
    bindings: Seq<Vec<u32>>,
    location: u64,
    t: u64,
    n: int,
) -> Db
    decreases n,
{
    if n <= 0 {
        db
    } else {
        let before = rows_stitched(e, db, r, root, bindings, location, t, n - 1);
        let it = r.iterators@[n - 1];
        if it.parent@.len() > 0 {
            before
        } else {
            let row = bindings[n - 1]@;
            row_stitched(e, before, root, it.branch, row, location, t, row.len() as int)
        }
    }
}

/// The database after stitching a proposal: the root lands loose on the proposed
/// cell, and the top-level bindings become its flat members.
pub open spec fn stitched(
    e: Env,
    db: Db,
    r: Recipe,
    root: u32,
    surface: u8,
    macro_zone: u64,
    micro_location: u32,
    bindings: Seq<Vec<u32>>,
    t: u64,
) -> Db {
    let location = packed::on_surface(macro_zone, surface);
    let d = if root != 0 {
        cards::edited(
            e,
            db,
            root,
            t,
            put_at(e, location, gate_api::loose_at(e, surface, micro_location)),
        )
    } else {
        db
    };
    rows_stitched(e, d, r, root, bindings, location, t, r.iterators@.len() as int)
}

/// Write the chain of a proposal.
pub fn chain_stitch(
    e: &Env,
    tb: &mut Tables,
    recipe: &Recipe,
    root: u32,
    surface: u8,
    macro_zone: u64,
    micro_location: u32,
    bindings: &Vec<Vec<u32>>,
    now_ms: u64,
)
    requires
        e.wf(),
        bindings.len() == recipe.iterators.len(),
    ensures
        final(tb)@ == stitched(
            *e,
            old(tb)@,
            *recipe,
            root,
            surface,
            macro_zone,
            micro_location,
            bindings@,
            now_ms,
        ),
{
    let location: u64 = packed::with_surface(macro_zone, surface);
    if root != 0 {
        let m = gate_api::loose_placement(e, surface, micro_location);
        put(e, tb, root, now_ms, location, m);
    }
    let ghost d = tb@;
    let its = &recipe.iterators;
    let mut i: usize = 0;
    while i < its.len()
        invariant
            i <= its.len(),
            its@ == recipe.iterators@,
            bindings.len() == its.len(),
            e.wf(),
            tb@ == rows_stitched(*e, d, *recipe, root, bindings@, location, now_ms, i as int),
        decreases its.len() - i,
    {
        let it = &its[i];
        if it.parent.len() == 0 {
            let row = &bindings[i];
            let ghost before = tb@;
            let mut k: usize = 0;
            while k < row.len()
                invariant
                    k <= row.len(),
                    e.wf(),
                    tb@ == row_stitched(
                        *e,
                        before,
                        root,
                        it.branch,
                        row@,
                        location,
                        now_ms,
                        k as int,
                    ),
                decreases row.len() - k,
            {
                let id: u32 = row[k];
                if id != 0 && id != root {
                    let offset: u8 = (k % 256) as u8;
                    let index: u8 = if offset < 15 {
                        offset
                    } else {
                        15
                    };
                    put(
                        e,
                        tb,
                        id,
                        now_ms,
                        location,
                        Micro::Stacked { root, branch: it.branch, index },
                    );
                }
                k = k + 1;
            }
        }
        i = i + 1;
    }
}

// ---- locks ---------------------------------------------------------
/// The database after taking an action's holds on one card.
pub open spec fn holds_taken(e: Env, db: Db, id: u32, k: HoldKinds, t: u64) -> Db {
    let a = cards::held(e, db, id, t, HoldKind::Touch, true);
    let b = if k.slot_hold {
        cards::held(e, a, id, t, HoldKind::SlotHold, true)
    } else {
        a
    };
    let c = if k.slot_share {
        cards::held(e, b, id, t, HoldKind::SlotShare, true)
    } else {
        b
    };
    if k.position_hold {
        cards::held(e, c, id, t, HoldKind::PositionHold, true)
    } else {
        c
    }
}

/// The database after taking the listed holds in order.
pub open spec fn locked(e: Env, db: Db, holds: Seq<(u32, HoldKinds)>, t: u64) -> Db
    decreases holds.len(),
{
    if holds.len() == 0 {
        db
    } else {
        let before = locked(e, db, holds.drop_last(), t);
        if holds.last().0 == 0 {
            before
        } else {
            holds_taken(e, before, holds.last().0, holds.last().1, t)
        }
    }
}

/// Take the holds of a plan.
pub fn apply_locks(e: &Env, tb: &mut Tables, p: &ActionPlan, now_ms: u64)
    requires
        e.wf(),
    ensures
        final(tb)@ == locked(*e, old(tb)@, p@.holds, now_ms),
{
    let ghost d = tb@;
    let holds = p.holds();
    let mut i: usize = 0;
    assert(holds@.take(0) =~= Seq::empty());
    while i < holds.len()
        invariant
            i <= holds.len(),
            e.wf(),
            tb@ == locked(*e, d, holds@.take(i as int), now_ms),
        decreases holds.len() - i,
    {
        proof {
            let next = holds@.take(i + 1);
            assert(next.drop_last() =~= holds@.take(i as int));
            assert(next.last() == holds@[i as int]);
        }
        let id: u32 = holds[i].0;
        let k: HoldKinds = holds[i].1;
        if id != 0 {
            cards::acquire_hold(e, tb, id, now_ms, HoldKind::Touch);
            if k.slot_hold {
                cards::acquire_hold(e, tb, id, now_ms, HoldKind::SlotHold);
            }
            if k.slot_share {
                cards::acquire_hold(e, tb, id, now_ms, HoldKind::SlotShare);
            }
            if k.position_hold {
                cards::acquire_hold(e, tb, id, now_ms, HoldKind::PositionHold);
            }
        }
        i = i + 1;
    }
    assert(holds@.take(holds.len() as int) =~= holds@);
}

// ---- proposals -----------------------------------------------------
/// Outcome of a proposal whose bindings are settled, at the resolved time `t`.
#[verifier::opaque]
pub open spec fn bound_proposed(
    e: Env,
    db: Db,
    r: Recipe,
    recipe_id: u16,
    surface: u8,
    macro_zone: u64,
    micro_location: u32,
    root: u32,
    bindings: Seq<Vec<u32>>,
    tile: Option<(SyntheticTile, HexLocation)>,
    caller: u32,
    t: u64,
) -> (Db, Result<(), ProposeError>) {
    let seen = match tile {
        Some(s) => Some(s.0),
        None => None,
    };
    let hex = match tile {
        Some(s) => Some(s.1),
        None => None,
    };
    let key = pending_actions::key_of(recipe_id, root, bindings);
    match verify::input_error(e, db, r, root, bindings, seen, t, r.input@.len() as int) {
        Some(err) => (db, Err(ProposeError::Input(err))),
        None => match verify::binding_error(e, db, r, recipe_id, root, bindings, caller, t) {
            Some(err) => (db, Err(ProposeError::Bind(err))),
            None => if pending_actions::in_flight(db.pending_actions, key) {
                (db, Err(ProposeError::InFlight { dedup_key: key }))
            } else {
                match plan::planned(e, db, r, bindings, root, hex) {
                    Err(err) => (db, Err(ProposeError::Plan(err))),
                    Ok(p) => {
                        let a = Db {
                            pending_actions: db.pending_actions.push(
                                PendingAction {
                                    dedup_key: key,
                                    completion_ms: (t + plan::length_ms(p)) as u64,
                                },
                            ),
                            ..db
                        };
                        let b = stitched(
                            e,
                            a,
                            r,
                            root,
                            surface,
                            macro_zone,
                            micro_location,
                            bindings,
                            t,
                        );
                        let c = locked(e, b, p.holds, t);
                        let d = completion::committed(e, c, p, bindings, root, t, key);
                        (
                            d.0,
                            match d.1 {
                                Ok(()) => Ok(()),
                                Err(err) => Err(ProposeError::Commit(err)),
                            },
                        )
                    },
                }
            },
        },
    }
}

/// Verify a proposal with settled bindings and carry it out at `now_ms`.
pub fn propose_bound(
    e: &Env,
    tb: &mut Tables,
    recipe: &Recipe,
    recipe_id: u16,
    surface: u8,
    macro_zone: u64,
    micro_location: u32,
    root: u32,
    bindings: &Vec<Vec<u32>>,
    tile: &Option<(SyntheticTile, HexLocation)>,
    caller_player_id: u32,
    now_ms: u64,
) -> (r: Result<(), ProposeError>)
    requires
        e.wf(),
        e.catalog.summable(),
        bindings.len() == recipe.iterators.len(),
        now_ms < packed::TIME_RADIX,
    ensures
        (final(tb)@, r) == bound_proposed(
            *e,
            old(tb)@,
            *recipe,
            recipe_id,
            surface,
            macro_zone,
            micro_location,
            root,
            bindings@,
            *tile,
            caller_player_id,
            now_ms,
        ),
{
    proof {
        reveal(bound_proposed);
    }
    let seen: Option<SyntheticTile> = match tile {
        Some(s) => Some(s.0),
        None => None,
    };
    let hex: Option<HexLocation> = match tile {
        Some(s) => Some(s.1),
        None => None,
    };
    if let Some(err) = verify::verify_input(e, tb, recipe, root, bindings, &seen, now_ms) {
        return Err(ProposeError::Input(err));
    }
    if let Some(err) = verify::validate_bindings(
        e,
        tb,
        recipe,
        recipe_id,
        root,
        bindings,
        caller_player_id,
        now_ms,
    ) {
        return Err(ProposeError::Bind(err));
    }
    let dedup_key: u64 = pending_actions::dedup_key(recipe_id, root, bindings);
    if pending_actions::is_in_flight(&tb.pending_actions, dedup_key) {
        return Err(ProposeError::InFlight { dedup_key });
    }
    let p: ActionPlan = match plan::plan(e, tb, recipe, bindings, root, &hex) {
        Err(err) => {
            return Err(ProposeError::Plan(err));
        },
        Ok(p) => p,
    };
    let completion_ms: u64 = now_ms + p.duration_ms();
    pending_actions::install(&mut tb.pending_actions, dedup_key, completion_ms);
    chain_stitch(
        e,
        tb,
        recipe,
        root,
        surface,
        macro_zone,
        micro_location,
        bindings,
        now_ms,
    );
    apply_locks(e, tb, &p, now_ms);
    match completion::commit(e, tb, &p, bindings, root, now_ms, dedup_key) {
        Ok(()) => Ok(()),
        Err(err) => Err(ProposeError::Commit(err)),
    }
}

/// What is known before the bindings are settled: the caller, the recipe and the
/// time of a proposal.
pub open spec fn admitted(
    e: Env,
    db: Db,
    caller: ConnectionId,
    client_time_ms: u64,
    recipe_id: u16,
    bindings: Seq<Vec<u32>>,
) -> Result<(u32, Recipe, u64), ProposeError> {
    match players::session_player(db.player_sessions, caller) {
        None => Err(ProposeError::Caller(PlayerError::NoSession)),
        Some(player) => match content::recipe_by_id(e.catalog.recipes@, recipe_id) {
            None => Err(ProposeError::UnknownRecipe { recipe_id }),
            Some(r) => if bindings.len() != r.iterators@.len() {
                Err(
                    ProposeError::BindingCount {
                        expected: r.iterators@.len() as usize,
                        actual: bindings.len() as usize,
                    },
                )
            } else {
                match time::resolved(e.now_ms, client_time_ms, time::NO_FORWARD_GRACE_MS) {
                    Err(drift) => Err(ProposeError::Time(drift)),
                    Ok(t) => Ok((player, r, t)),
                }
            },
        },
    }
}

/// `(after, res)` is the outcome of a proposal whose row `i` leaves its tile open:
/// the tile on the proposed cell is promoted and bound there first.
#[verifier::opaque]
pub open spec fn tile_proposed(
    e: Env,
    db: Db,
    after: Db,
    res: Result<(), ProposeError>,
    r: Recipe,
    recipe_id: u16,
    surface: u8,
    macro_zone: u64,
    micro_location: u32,
    root: u32,
    bindings: Seq<Vec<u32>>,
    i: int,
    player: u32,
    t: u64,
) -> bool {
    match synthetic(e, db, surface, macro_zone, micro_location, t) {
        None => (after, res) == (db, Err::<(), ProposeError>(ProposeError::NoTile)),
        Some(tile) => {
            let f = packed::micro_loose_fields(micro_location);
            let p = tile_cards::promotion(
                e,
                db,
                packed::on_surface(macro_zone, surface),
                f.0,
                f.1,
                t,
            );
            match p.1 {
                Err(err) => (after, res) == (
                    p.0,
                    Err::<(), ProposeError>(ProposeError::Promote(err)),
                ),
                Ok(card) => exists|b: Vec<Vec<u32>>|
                    {
                        &&& #[trigger] substituted(b@, bindings, i, card.card_id)
                        &&& (after, res) == bound_proposed(
                            e,
                            p.0,
                            r,
                            recipe_id,
                            surface,
                            macro_zone,
                            micro_location,
                            root,
                            b@,
                            Some(tile),
                            player,
                            t,
                        )
                    },
            }
        },
    }
}

/// `(after, res)` is the outcome of a proposal. An overdue action of the caller
/// blocks every proposal that does not touch it.
pub open spec fn proposed(
    e: Env,
    db: Db,
    after: Db,
    res: Result<(), ProposeError>,
    caller: ConnectionId,
    client_time_ms: u64,
    recipe_id: u16,
    surface: u8,
    macro_zone: u64,
    micro_location: u32,
    root: u32,
    bindings: Seq<Vec<u32>>,
) -> bool {
    match admitted(e, db, caller, client_time_ms, recipe_id, bindings) {
        Err(err) => (after, res) == (db, Err::<(), ProposeError>(err)),
        Ok((player, r, t)) => {
            let g = lifecycle_pending::gate(
                db,
                player,
                t,
                completion::participants(bindings, root),
            );
            match g.1 {
                Err(b) => (after, res) == (g.0, Err::<(), ProposeError>(ProposeError::Blocked(b))),
                Ok(()) => match open_tile_row(r.iterators@, bindings, 0) {
                    None => (after, res) == bound_proposed(
                        e,
                        g.0,
                        r,
                        recipe_id,
                        surface,
                        macro_zone,
                        micro_location,
                        root,
                        bindings,
                        None,
                        player,
                        t,
                    ),
                    Some(i) => tile_proposed(
                        e,
                        g.0,
                        after,
                        res,
                        r,
                        recipe_id,
                        surface,
                        macro_zone,
                        micro_location,
                        root,
                        bindings,
                        i,
                        player,
                        t,
                    ),
                },
            }
        },
    }
}

fn let_in<'a>(
    e: &'a Env,
    tb: &Tables,
    caller: ConnectionId,
    client_time_ms: u64,
    recipe_id: u16,
    bindings: &Vec<Vec<u32>>,
) -> (r: Result<(u32, &'a Recipe, u64), ProposeError>)
    ensures
        match r {
            Err(err) => admitted(
                *e,
                tb@,
                caller,
                client_time_ms,
                recipe_id,
                bindings@,
            ) == Err::<(u32, Recipe, u64), ProposeError>(err),
            Ok(a) => {
                &&& admitted(*e, tb@, caller, client_time_ms, recipe_id, bindings@) == Ok::<
                    (u32, Recipe, u64),
                    ProposeError,
                >((a.0, *a.1, a.2))
                &&& bindings.len() == a.1.iterators.len()
                &&& a.2 <= e.now_ms
            },
        },
{
    let player: u32 = match players::resolve_caller(tb, caller) {
        Err(err) => {
            return Err(ProposeError::Caller(err));
        },
        Ok(p) => p,
    };
    let recipe = match e.catalog.recipe(recipe_id) {
        None => {
            return Err(ProposeError::UnknownRecipe { recipe_id });
        },
        Some(r) => r,
    };
    if bindings.len() != recipe.iterators.len() {
        return Err(
            ProposeError::BindingCount {
                expected: recipe.iterators.len(),
                actual: bindings.len(),
            },
        );
    }
    match time::resolve(e.now_ms, client_time_ms, time::NO_FORWARD_GRACE_MS) {
        Err(drift) => Err(ProposeError::Time(drift)),
        Ok(t) => Ok((player, recipe, t)),
    }
}

fn propose_on_tile(
    e: &Env,
    tb: &mut Tables,
    recipe: &Recipe,
    recipe_id: u16,
    surface: u8,
    macro_zone: u64,
    micro_location: u32,
    root: u32,
    bindings: &Vec<Vec<u32>>,
    row: usize,
    player: u32,
    now_ms: u64,
) -> (r: Result<(), ProposeError>)
    requires
        e.wf(),
        e.catalog.summable(),
        bindings.len() == recipe.iterators.len(),
        row < bindings.len(),
        bindings@[row as int]@.len() > 0,
        now_ms < packed::TIME_RADIX,
    ensures
        tile_proposed(
            *e,
            old(tb)@,
            final(tb)@,
            r,
            *recipe,
            recipe_id,
            surface,
            macro_zone,
            micro_location,
            root,
            bindings@,
            row as int,
            player,
            now_ms,
        ),
{
    proof {
        reveal(tile_proposed);
    }
    let tile: (SyntheticTile, HexLocation) = match derive_synthetic_hex(
        e,
        tb,
        surface,
        macro_zone,
        micro_location,
        now_ms,
    ) {
        None => {
            return Err(ProposeError::NoTile);
        },
        Some(t) => t,
    };
    let cell: (u8, u8) = packed::micro_loose_cell(micro_location);
    let location: u64 = packed::with_surface(macro_zone, surface);
    let card: Card = match tile_cards::find_or_create_tile_card(
        e,
        tb,
        location,
        cell.0,
        cell.1,
        now_ms,
    ) {
        Err(err) => {
            return Err(ProposeError::Promote(err));
        },
        Ok(c) => c,
    };
    let settled: Vec<Vec<u32>> = substitute(bindings, row, card.card_id);
    let r: Result<(), ProposeError> = propose_bound(
        e,
        tb,
        recipe,
        recipe_id,
        surface,
        macro_zone,
        micro_location,
        root,
        &settled,
        &Some(tile),
        player,
        now_ms,
    );
    assert(substituted(settled@, bindings@, row as int, card.card_id));
    r
}

/// Verify a proposed recipe with its bindings, then stitch its chain, take its
/// holds and emit its completion. On an error the caller discards the tables.
pub fn propose_action(
    e: &Env,
    tb: &mut Tables,
    caller: ConnectionId,
    client_time_ms: u64,
    recipe_id: u16,
    surface: u8,
    macro_zone: u64,
    micro_location: u32,
    root: u32,
    bindings: &Vec<Vec<u32>>,
) -> (r: Result<(), ProposeError>)
    requires
        e.wf(),
        e.catalog.summable(),
        e.now_ms < packed::TIME_RADIX,
    ensures
        proposed(
            *e,
            old(tb)@,
            final(tb)@,
            r,
            caller,
            client_time_ms,
            recipe_id,
            surface,
            macro_zone,
            micro_location,
            root,
            bindings@,
        ),
{
    let a: (u32, &Recipe, u64) = match let_in(e, tb, caller, client_time_ms, recipe_id, bindings) {
        Err(err) => {
            return Err(err);
        },
        Ok(a) => a,
    };
    let involved: Vec<u32> = completion::find_participants(bindings, root);
    match lifecycle_pending::block_check(tb, a.0, a.2, &involved) {
        Err(b) => {
            return Err(ProposeError::Blocked(b));
        },
        Ok(u) => {
            assert(u == ());
        },
    }
    match find_open_tile_row(a.1, bindings) {
        None => propose_bound(
            e,
            tb,
            a.1,
            recipe_id,
            surface,
            macro_zone,
            micro_location,
            root,
            bindings,
            &None,
            a.0,
            a.2,
        ),
        Some(row) => propose_on_tile(
            e,
            tb,
            a.1,
            recipe_id,
            surface,
            macro_zone,
            micro_location,
            root,
            bindings,
            row,
            a.0,
            a.2,
        ),
    }
}

} // verus!
