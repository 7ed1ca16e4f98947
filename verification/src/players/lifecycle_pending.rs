//! Active magnetic actions per player, and the guard that blocks a player whose
//! action is overdue.
use vstd::prelude::*;
use vstd::string::*;

use crate::cards::cards;
use crate::cards::cards::Card;
use crate::cards::env::Env;
use crate::content;
use crate::history;
use crate::players::players;
use crate::players::players::PlayerProfile;
use crate::tables::Db;
use crate::tables::Tables;
use crate::text;

verus! {

/// One active magnetic action.
#[derive(Clone, Copy, Debug, PartialEq, Eq, Structural)]
pub struct LifecyclePending {
    /// The magnetic card.
    pub card_id: u32,
    /// When the phase ends.
    pub expires_at_ms: u64,
    /// The player who has to resolve it; `0` for world-owned magnetics.
    pub player_id: u32,
}

/// Grace after an action's end before the guard engages.
pub const BLOCK_GRACE_MS: u64 = 60_000;

/// An overdue action blocks the caller.
#[derive(Clone, Copy, Debug, PartialEq, Eq, Structural)]
pub struct Blocked {
    pub card_id: u32,
    pub expires_at_ms: u64,
    pub overdue_ms: u64,
}

/// The text of a block, as a client parses it.
pub open spec fn block_text(b: Blocked) -> Seq<char> {
    "magnetic_blocked: card_id="@ + text::decimal(b.card_id as nat) + "; expires_at_ms="@
        + text::decimal(b.expires_at_ms as nat) + "; overdue_ms="@ + text::decimal(
        b.overdue_ms as nat,
    )
}

impl Blocked {
    /// The text of a refusal: the card to resolve, when its phase ended, and how long
    /// ago that is.
    pub fn text(&self) -> (text: String)
        ensures
            text@ == block_text(*self),
    {
        let mut text: String = String::new();
        text.append("magnetic_blocked: card_id=");
        text::append_decimal(&mut text, self.card_id as u64);
        text.append("; expires_at_ms=");
        text::append_decimal(&mut text, self.expires_at_ms);
        text.append("; overdue_ms=");
        text::append_decimal(&mut text, self.overdue_ms);
        assert(text@ =~= block_text(*self));
        text
    }
}

pub open spec fn other_card(card_id: u32) -> spec_fn(LifecyclePending) -> bool {
    |r: LifecyclePending| r.card_id != card_id
}

/// `rows` without the row of a card.
pub open spec fn removed(rows: Seq<LifecyclePending>, card_id: u32) -> Seq<LifecyclePending> {
    rows.filter(other_card(card_id))
}

fn remove_row(rows: &mut Vec<LifecyclePending>, card_id: u32)
    ensures
        final(rows)@ == removed(old(rows)@, card_id),
{
    let mut kept: Vec<LifecyclePending> = Vec::new();
    let mut i: usize = 0;
    let ghost all = rows@;
    let ghost keep = other_card(card_id);
    proof {
        reveal(Seq::filter);
        assert(all.take(0).filter(keep) =~= Seq::empty());
    }
    while i < rows.len()
        invariant
            i <= rows.len(),
            rows@ == all,
            keep == other_card(card_id),
            kept@ == all.take(i as int).filter(keep),
        decreases rows.len() - i,
    {
        let row = rows[i];
        proof {
            history::filter_take_step(all, i as int, keep);
        }
        if row.card_id != card_id {
            kept.push(row);
        }
        i = i + 1;
    }
    assert(all.take(all.len() as int) =~= all);
    *rows = kept;
}

/// Insert or replace the row of a card.
pub fn install(tb: &mut Tables, card_id: u32, expires_at_ms: u64, player_id: u32)
    ensures
        final(tb)@ == (Db {
            lifecycle_pending: removed(old(tb)@.lifecycle_pending, card_id).push(
                LifecyclePending { card_id, expires_at_ms, player_id },
            ),
            ..old(tb)@
        }),
{
    remove_row(&mut tb.lifecycle_pending, card_id);
    tb.lifecycle_pending.push(LifecyclePending { card_id, expires_at_ms, player_id });
}

/// Remove the row of a card, if there is one.
pub fn remove(tb: &mut Tables, card_id: u32)
    ensures
        final(tb)@ == (Db {
            lifecycle_pending: removed(old(tb)@.lifecycle_pending, card_id),
            ..old(tb)@
        }),
{
    remove_row(&mut tb.lifecycle_pending, card_id);
}

// ---- phases follow card writes -------------------------------------
/// The row of a card.
pub open spec fn row_of(rows: Seq<LifecyclePending>, card_id: u32) -> Option<LifecyclePending>
    decreases rows.len(),
{
    if rows.len() == 0 {
        None
    } else if rows.last().card_id == card_id {
        Some(rows.last())
    } else {
        row_of(rows.drop_last(), card_id)
    }
}

fn find_row(rows: &Vec<LifecyclePending>, card_id: u32) -> (found: Option<LifecyclePending>)
    ensures
        found == row_of(rows@, card_id),
{
    let mut i: usize = rows.len();
    assert(rows@.take(i as int) =~= rows@);
    while i > 0
        invariant
            i <= rows.len(),
            row_of(rows@, card_id) == row_of(rows@.take(i as int), card_id),
        decreases i,
    {
        proof {
            let t = rows@.take(i as int);
            assert(t.last() == rows@[i - 1]);
            assert(t.drop_last() =~= rows@.take(i - 1));
        }
        if rows[i - 1].card_id == card_id {
            return Some(rows[i - 1]);
        }
        i = i - 1;
    }
    None
}

pub open spec fn is_magnetic(e: Env, card: Card) -> bool {
    card.flags_state & e.state.magnetic != 0
}

/// When a phase that starts at `t` ends (saturating); none where the card's
/// definition declares no magnetic phase.
pub open spec fn phase_end(e: Env, card: Card, t: u64) -> Option<u64> {
    match content::definition(e.catalog.definitions@, card.packed_definition) {
        Some(d) => match d.magnetic_duration_ms {
            Some(ms) => Some(
                if t + ms > u64::MAX {
                    u64::MAX
                } else {
                    (t + ms) as u64
                },
            ),
            None => None,
        },
        None => None,
    }
}

/// The write of `row` after `prev` kills the card.
pub open spec fn dies(e: Env, prev: Option<Card>, row: Card) -> bool {
    cards::is_dead(e, row) && (prev matches Some(p) ==> !cards::is_dead(e, p))
}

/// The write of `row` after `prev` creates a magnetic card.
pub open spec fn opens_phase(e: Env, prev: Option<Card>, row: Card) -> bool {
    prev is None && is_magnetic(e, row) && !cards::is_dead(e, row)
}

/// The phases and the profiles after the write of `row` at `t`: a card that dies
/// loses its phase, and a magnetic card that is created gets one, on account of
/// the player who owns it then. The player's summary is brought in step.
#[verifier::opaque]
pub open spec fn phases_noted(e: Env, db: Db, prev: Option<Card>, row: Card, t: u64) -> (
    Seq<LifecyclePending>,
    Seq<PlayerProfile>,
) {
    let after = if dies(e, prev, row) {
        match row_of(db.lifecycle_pending, row.card_id) {
            None => db,
            Some(r) => players::resynced(
                Db { lifecycle_pending: removed(db.lifecycle_pending, row.card_id), ..db },
                r.player_id,
            ),
        }
    } else if opens_phase(e, prev, row) {
        match phase_end(e, row, t) {
            None => db,
            Some(expires_at_ms) => {
                let player_id = match cards::player_at(e, db, row.card_id, t) {
                    Some(p) => p,
                    None => cards::WORLD_PLAYER_ID,
                };
                players::resynced(
                    Db {
                        lifecycle_pending: removed(db.lifecycle_pending, row.card_id).push(
                            LifecyclePending { card_id: row.card_id, expires_at_ms, player_id },
                        ),
                        ..db
                    },
                    player_id,
                )
            },
        }
    } else {
        db
    };
    (after.lifecycle_pending, after.player_profiles)
}

/// Bring the phases in step with a card write.
pub fn on_card_write(e: &Env, tb: &mut Tables, prev: Option<Card>, row: &Card, time_ms: u64)
    ensures
        ({
            let phases = phases_noted(*e, old(tb)@, prev, *row, time_ms);
            final(tb)@ == (Db {
                lifecycle_pending: phases.0,
                player_profiles: phases.1,
                ..old(tb)@
            })
        }),
{
    proof {
        reveal(phases_noted);
    }
    let dead: bool = row.flags_state & e.state.dead != 0;
    let was_alive: bool = match prev {
        Some(p) => p.flags_state & e.state.dead == 0,
        None => true,
    };
    if dead && was_alive {
        if let Some(r) = find_row(&tb.lifecycle_pending, row.card_id) {
            remove(tb, row.card_id);
            players::resync_lifecycle_summary(tb, r.player_id);
        }
    } else if prev.is_none() && row.flags_state & e.state.magnetic != 0 {
        let lasts: Option<u64> = match e.catalog.decode_definition(row.packed_definition) {
            Some(d) => d.magnetic_duration_ms,
            None => None,
        };
        if let Some(ms) = lasts {
            let end: u64 = if time_ms > u64::MAX - ms {
                u64::MAX
            } else {
                time_ms + ms
            };
            let player_id: u32 = match cards::owning_player_at(e, tb, row.card_id, time_ms) {
                Some(p) => p,
                None => cards::WORLD_PLAYER_ID,
            };
            install(tb, row.card_id, end, player_id);
            players::resync_lifecycle_summary(tb, player_id);
        }
    }
}

/// The number of a player's rows (saturating) and their earliest end;
/// `(0, u64::MAX)` for none.
pub open spec fn tally(rows: Seq<LifecyclePending>, player_id: u32) -> (u32, u64)
    decreases rows.len(),
{
    if rows.len() == 0 {
        (0, u64::MAX)
    } else {
        let (n, earliest) = tally(rows.drop_last(), player_id);
        let row = rows.last();
        if row.player_id == player_id {
            (
                if n < u32::MAX {
                    (n + 1) as u32
                } else {
                    n
                },
                if row.expires_at_ms < earliest {
                    row.expires_at_ms
                } else {
                    earliest
                },
            )
        } else {
            (n, earliest)
        }
    }
}

/// The summary of a player's actions: count and earliest end, `(0, 0)` for none.
pub open spec fn summary(rows: Seq<LifecyclePending>, player_id: u32) -> (u32, u64) {
    let (n, earliest) = tally(rows, player_id);
    if n == 0 {
        (0, 0)
    } else {
        (n, earliest)
    }
}

/// Count a player's rows and find the earliest end.
pub fn summarize_for_player(tb: &Tables, player_id: u32) -> (s: (u32, u64))
    ensures
        s == summary(tb@.lifecycle_pending, player_id),
{
    let rows = &tb.lifecycle_pending;
    let mut count: u32 = 0;
    let mut earliest: u64 = u64::MAX;
    let mut i: usize = 0;
    while i < rows.len()
        invariant
            i <= rows.len(),
            rows@ == tb@.lifecycle_pending,
            (count, earliest) == tally(rows@.take(i as int), player_id),
        decreases rows.len() - i,
    {
        let row = rows[i];
        proof {
            let next = rows@.take(i + 1);
            assert(next.drop_last() =~= rows@.take(i as int));
            assert(next.last() == row);
        }
        if row.player_id == player_id {
            count = if count < u32::MAX {
                count + 1
            } else {
                count
            };
            if row.expires_at_ms < earliest {
                earliest = row.expires_at_ms;
            }
        }
        i = i + 1;
    }
    assert(rows@.take(rows.len() as int) =~= rows@);
    if count == 0 {
        (0, 0)
    } else {
        (count, earliest)
    }
}

/// The card has a row of any time.
pub open spec fn known(cards: Seq<Card>, card_id: u32) -> bool {
    exists|i: int| 0 <= i < cards.len() && (#[trigger] cards[i]).card_id == card_id
}

fn is_known(tb: &Tables, card_id: u32) -> (r: bool)
    ensures
        r == known(tb@.cards, card_id),
{
    let mut i: usize = 0;
    while i < tb.cards.len()
        invariant
            i <= tb.cards.len(),
            forall|j: int| 0 <= j < i ==> (#[trigger] tb@.cards[j]).card_id != card_id,
        decreases tb.cards.len() - i,
    {
        if tb.cards[i].card_id == card_id {
            assert(tb@.cards[i as int].card_id == card_id);
            return true;
        }
        i = i + 1;
    }
    false
}

/// An end plus the grace, saturating.
pub open spec fn with_grace(expires_at_ms: u64) -> u64 {
    if expires_at_ms + BLOCK_GRACE_MS > u64::MAX {
        u64::MAX
    } else {
        (expires_at_ms + BLOCK_GRACE_MS) as u64
    }
}

fn graced(expires_at_ms: u64) -> (t: u64)
    ensures
        t == with_grace(expires_at_ms),
{
    if expires_at_ms > u64::MAX - BLOCK_GRACE_MS {
        u64::MAX
    } else {
        expires_at_ms + BLOCK_GRACE_MS
    }
}

/// A walk over the rows of a caller.
#[verifier::ext_equal]
pub struct GateWalk {
    /// Rows whose card is gone, dropped on the way.
    pub phantom: Seq<u32>,
    /// The call touches one of the caller's rows.
    pub resolving: bool,
    /// The overdue row with the earliest end.
    pub offending: Option<LifecyclePending>,
}

/// Walk `rows` from the front; the walk ends where the call touches a row of
/// the caller.
pub open spec fn gate_walk(
    cards: Seq<Card>,
    rows: Seq<LifecyclePending>,
    caller: u32,
    now_ms: u64,
    involved: Seq<u32>,
) -> GateWalk
    decreases rows.len(),
{
    if rows.len() == 0 {
        GateWalk { phantom: Seq::empty(), resolving: false, offending: None }
    } else {
        let w = gate_walk(cards, rows.drop_last(), caller, now_ms, involved);
        let row = rows.last();
        if w.resolving || row.player_id != caller {
            w
        } else if !known(cards, row.card_id) {
            GateWalk { phantom: w.phantom.push(row.card_id), ..w }
        } else if involved.contains(row.card_id) {
            GateWalk { resolving: true, ..w }
        } else if with_grace(row.expires_at_ms) < now_ms && (w.offending matches Some(o)
            ==> row.expires_at_ms < o.expires_at_ms) {
            GateWalk { offending: Some(row), ..w }
        } else {
            w
        }
    }
}

pub open spec fn not_among(ids: Seq<u32>) -> spec_fn(LifecyclePending) -> bool {
    |r: LifecyclePending| !ids.contains(r.card_id)
}

/// `db` after dropping phantom rows of a caller; the caller's summary is
/// recomputed where any was dropped.
pub open spec fn purged(db: Db, phantom: Seq<u32>, caller: u32) -> Db {
    if phantom.len() == 0 {
        db
    } else {
        players::resynced(
            Db {
                lifecycle_pending: db.lifecycle_pending.filter(not_among(phantom)),
                ..db
            },
            caller,
        )
    }
}

/// The outcome of the guard: the tables after purging, and the block, if any.
pub open spec fn gate(db: Db, caller: u32, now_ms: u64, involved: Seq<u32>) -> (
    Db,
    Result<(), Blocked>,
) {
    match players::profile_index(db.player_profiles, caller) {
        None => (db, Ok(())),
        Some(i) => {
            let profile = db.player_profiles[i];
            if profile.lifecycle_count == 0 || now_ms <= with_grace(
                profile.earliest_lifecycle_expires_ms,
            ) {
                (db, Ok(()))
            } else {
                let w = gate_walk(db.cards, db.lifecycle_pending, caller, now_ms, involved);
                let d = purged(db, w.phantom, caller);
                match w.offending {
                    Some(o) if !w.resolving => (
                        d,
                        Err(
                            Blocked {
                                card_id: o.card_id,
                                expires_at_ms: o.expires_at_ms,
                                overdue_ms: (now_ms - o.expires_at_ms) as u64,
                            },
                        ),
                    ),
                    _ => (d, Ok(())),
                }
            }
        },
    }
}

fn holds(ids: &Vec<u32>, id: u32) -> (r: bool)
    ensures
        r == ids@.contains(id),
{
    let mut i: usize = 0;
    while i < ids.len()
        invariant
            i <= ids.len(),
            forall|j: int| 0 <= j < i ==> ids[j] != id,
        decreases ids.len() - i,
    {
        if ids[i] == id {
            return true;
        }
        i = i + 1;
    }
    false
}

fn purge(tb: &mut Tables, phantom: &Vec<u32>, caller: u32)
    ensures
        final(tb)@ == purged(old(tb)@, phantom@, caller),
{
    if phantom.len() == 0 {
        return;
    }
    let mut kept: Vec<LifecyclePending> = Vec::new();
    let mut i: usize = 0;
    let ghost all = tb@.lifecycle_pending;
    let ghost keep = not_among(phantom@);
    proof {
        reveal(Seq::filter);
        assert(all.take(0).filter(keep) =~= Seq::empty());
    }
    while i < tb.lifecycle_pending.len()
        invariant
            i <= tb.lifecycle_pending.len(),
            tb@.lifecycle_pending == all,
            keep == not_among(phantom@),
            kept@ == all.take(i as int).filter(keep),
        decreases tb.lifecycle_pending.len() - i,
    {
        let row = tb.lifecycle_pending[i];
        proof {
            history::filter_take_step(all, i as int, keep);
        }
        if !holds(phantom, row.card_id) {
            kept.push(row);
        }
        i = i + 1;
    }
    assert(all.take(all.len() as int) =~= all);
    tb.lifecycle_pending = kept;
    players::resync_lifecycle_summary(tb, caller);
}

/// Check whether the caller is blocked by an overdue magnetic action. A call
/// that touches one of the caller's own magnetic cards passes, as an attempt to
/// resolve it. Rows whose card no longer exists are dropped on the way.
pub fn block_check(
    tb: &mut Tables,
    caller_player_id: u32,
    now_ms: u64,
    involved_card_ids: &Vec<u32>,
) -> (r: Result<(), Blocked>)
    ensures
        (final(tb)@, r) == gate(old(tb)@, caller_player_id, now_ms, involved_card_ids@),
{
    let profile = match players::find_profile(tb, caller_player_id) {
        None => {
            return Ok(());
        },
        Some(i) => tb.player_profiles[i],
    };
    if profile.lifecycle_count == 0 {
        return Ok(());
    }
    if now_ms <= graced(profile.earliest_lifecycle_expires_ms) {
        return Ok(());
    }
    let mut phantom: Vec<u32> = Vec::new();
    let mut resolving: bool = false;
    let mut offending: Option<LifecyclePending> = None;
    let mut i: usize = 0;
    while i < tb.lifecycle_pending.len()
        invariant
            i <= tb.lifecycle_pending.len(),
            gate_walk(
                tb@.cards,
                tb@.lifecycle_pending.take(i as int),
                caller_player_id,
                now_ms,
                involved_card_ids@,
            ) == (GateWalk { phantom: phantom@, resolving, offending }),
            offending matches Some(o) ==> with_grace(o.expires_at_ms) < now_ms,
        decreases tb.lifecycle_pending.len() - i,
    {
        let row = tb.lifecycle_pending[i];
        proof {
            let next = tb@.lifecycle_pending.take(i + 1);
            assert(next.drop_last() =~= tb@.lifecycle_pending.take(i as int));
            assert(next.last() == row);
        }
        if !resolving && row.player_id == caller_player_id {
            if !is_known(tb, row.card_id) {
                phantom.push(row.card_id);
            } else if holds(involved_card_ids, row.card_id) {
                resolving = true;
            } else if graced(row.expires_at_ms) < now_ms {
                match offending {
                    None => {
                        offending = Some(row);
                    },
                    Some(o) => {
                        if row.expires_at_ms < o.expires_at_ms {
                            offending = Some(row);
                        }
                    },
                }
            }
        }
        i = i + 1;
    }
    assert(tb@.lifecycle_pending.take(tb@.lifecycle_pending.len() as int)
        =~= tb@.lifecycle_pending);
    purge(tb, &phantom, caller_player_id);
    if resolving {
        return Ok(());
    }
    match offending {
        None => Ok(()),
        Some(o) => Err(
            Blocked {
                card_id: o.card_id,
                expires_at_ms: o.expires_at_ms,
                overdue_ms: now_ms - o.expires_at_ms,
            },
        ),
    }
}

// ---- laws ----------------------------------------------------------
/// A call that touches one of the caller's pending cards is never blocked.
pub proof fn touching_call_passes(db: Db, caller: u32, now_ms: u64, involved: Seq<u32>, i: int)
    requires
        0 <= i < db.lifecycle_pending.len(),
        db.lifecycle_pending[i].player_id == caller,
        known(db.cards, db.lifecycle_pending[i].card_id),
        involved.contains(db.lifecycle_pending[i].card_id),
    ensures
        gate(db, caller, now_ms, involved).1 is Ok,
{
    lemma_touch_resolves(db.cards, db.lifecycle_pending, caller, now_ms, involved, i);
}

proof fn lemma_touch_resolves(
    cards: Seq<Card>,
    rows: Seq<LifecyclePending>,
    caller: u32,
    now_ms: u64,
    involved: Seq<u32>,
    i: int,
)
    requires
        0 <= i < rows.len(),
        rows[i].player_id == caller,
        known(cards, rows[i].card_id),
        involved.contains(rows[i].card_id),
    ensures
        gate_walk(cards, rows, caller, now_ms, involved).resolving,
    decreases rows.len(),
{
    if i < rows.len() - 1 {
        assert(rows.drop_last()[i] == rows[i]);
        lemma_touch_resolves(cards, rows.drop_last(), caller, now_ms, involved, i);
    }
}

/// A caller none of whose pending actions is past its grace is never blocked.
pub proof fn punctual_caller_passes(db: Db, caller: u32, now_ms: u64, involved: Seq<u32>)
    requires
        forall|i: int|
            0 <= i < db.lifecycle_pending.len() && (
            #[trigger] db.lifecycle_pending[i]).player_id == caller ==> now_ms <= with_grace(
                db.lifecycle_pending[i].expires_at_ms,
            ),
    ensures
        gate(db, caller, now_ms, involved).1 is Ok,
{
    lemma_punctual(db.cards, db.lifecycle_pending, caller, now_ms, involved);
}

proof fn lemma_punctual(
    cards: Seq<Card>,
    rows: Seq<LifecyclePending>,
    caller: u32,
    now_ms: u64,
    involved: Seq<u32>,
)
    requires
        forall|i: int|
            0 <= i < rows.len() && (#[trigger] rows[i]).player_id == caller ==> now_ms
                <= with_grace(rows[i].expires_at_ms),
    ensures
        gate_walk(cards, rows, caller, now_ms, involved).offending is None,
    decreases rows.len(),
{
    if rows.len() > 0 {
        let init = rows.drop_last();
        assert forall|i: int|
            0 <= i < init.len() && (#[trigger] init[i]).player_id == caller implies now_ms
            <= with_grace(init[i].expires_at_ms) by {
            assert(rows[i] == init[i]);
        }
        lemma_punctual(cards, init, caller, now_ms, involved);
        assert(rows[rows.len() - 1] == rows.last());
    }
}

proof fn lemma_row_after_removal(rows: Seq<LifecyclePending>, card_id: u32, id: u32)
    ensures
        row_of(removed(rows, card_id), id) == if id == card_id {
            None
        } else {
            row_of(rows, id)
        },
    decreases rows.len(),
{
    reveal(Seq::filter);
    if rows.len() > 0 {
        let init = rows.drop_last();
        lemma_row_after_removal(init, card_id, id);
        let f = removed(init, card_id);
        assert(f.push(rows.last()).drop_last() =~= f);
    }
}

/// A magnetic card is pending from its creation on, until its definition's time
/// has run; the phases of other cards stay, and the summary of the player who
/// owns the card counts the new phase.
pub proof fn created_magnetics_are_pending(e: Env, db: Db, row: Card, t: u64, id: u32)
    requires
        opens_phase(e, None, row),
        phase_end(e, row, t) is Some,
    ensures
        ({
            let phases = phases_noted(e, db, None, row, t);
            let player_id = match cards::player_at(e, db, row.card_id, t) {
                Some(p) => p,
                None => cards::WORLD_PLAYER_ID,
            };
            &&& row_of(phases.0, row.card_id) == Some(
                LifecyclePending {
                    card_id: row.card_id,
                    expires_at_ms: phase_end(e, row, t)->0,
                    player_id,
                },
            )
            &&& id != row.card_id ==> row_of(phases.0, id) == row_of(db.lifecycle_pending, id)
            &&& player_id != 0 ==> in_step(db.player_profiles, phases, player_id)
        }),
{
    reveal(phases_noted);
    let player_id = match cards::player_at(e, db, row.card_id, t) {
        Some(p) => p,
        None => cards::WORLD_PLAYER_ID,
    };
    let new = LifecyclePending {
        card_id: row.card_id,
        expires_at_ms: phase_end(e, row, t)->0,
        player_id,
    };
    let kept = removed(db.lifecycle_pending, row.card_id);
    lemma_row_after_removal(db.lifecycle_pending, row.card_id, id);
    assert(kept.push(new).drop_last() =~= kept);
    lemma_profile_found(db.player_profiles, player_id);
}

/// The player's profile, if there is one, shows the summary of the phases.
pub open spec fn in_step(
    profiles: Seq<PlayerProfile>,
    phases: (Seq<LifecyclePending>, Seq<PlayerProfile>),
    player_id: u32,
) -> bool {
    match players::profile_index(profiles, player_id) {
        None => phases.1 == profiles,
        Some(i) => {
            let s = summary(phases.0, player_id);
            &&& phases.1.len() == profiles.len()
            &&& phases.1[i].lifecycle_count == s.0
            &&& phases.1[i].earliest_lifecycle_expires_ms == s.1
        },
    }
}

proof fn lemma_profile_found(profiles: Seq<PlayerProfile>, player_id: u32)
    ensures
        players::profile_index(profiles, player_id) matches Some(i) ==> 0 <= i < profiles.len(),
    decreases profiles.len(),
{
    if profiles.len() > 0 {
        lemma_profile_found(profiles.drop_last(), player_id);
    }
}

/// A card that dies is no longer pending; the phases of other cards stay, and the
/// summary of the player on whose account it stood no longer counts it.
pub proof fn dead_cards_are_not_pending(
    e: Env,
    db: Db,
    prev: Option<Card>,
    row: Card,
    t: u64,
    id: u32,
)
    requires
        dies(e, prev, row),
    ensures
        ({
            let phases = phases_noted(e, db, prev, row, t);
            &&& row_of(phases.0, row.card_id) is None
            &&& id != row.card_id ==> row_of(phases.0, id) == row_of(db.lifecycle_pending, id)
            &&& row_of(db.lifecycle_pending, row.card_id) matches Some(r) ==> (r.player_id != 0
                ==> in_step(db.player_profiles, phases, r.player_id))
        }),
{
    reveal(phases_noted);
    lemma_row_after_removal(db.lifecycle_pending, row.card_id, id);
    lemma_row_after_removal(db.lifecycle_pending, row.card_id, row.card_id);
    if let Some(r) = row_of(db.lifecycle_pending, row.card_id) {
        lemma_profile_found(db.player_profiles, r.player_id);
    }
}

} // verus!
