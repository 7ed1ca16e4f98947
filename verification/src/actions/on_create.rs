//! Recipes that a freshly created card starts by itself.
//!
//! How specifically a recipe's entities match the card, and whether its
//! requirements on the owner's soul are feasible, is given with each candidate.
//! The requirements are held against the two stacks of [`has_candidates`].
use vstd::prelude::*;

use crate::actions::recipe_eval;
use crate::cards::cards;
use crate::cards::cards::Card;
use crate::cards::env;
use crate::cards::env::Env;
use crate::cards::env::HoldKind;
use crate::content;
use crate::history;
use crate::tables::Db;
use crate::tables::Tables;

verus! {

/// What a recipe does to the flags of a card when it starts.
#[derive(Clone, Copy, Debug, PartialEq, Eq, Structural)]
pub struct FlagOps {
    /// State bits to set.
    pub set: u32,
    /// State bits to clear.
    pub clear: u32,
    /// Takes or gives back the slot hold, where the recipe says so.
    pub slot_hold: Option<bool>,
}

/// The duration of a recipe.
#[derive(Clone, Copy, Debug, PartialEq, Eq, Structural)]
pub enum Duration {
    Fixed { secs: u32 },
    /// Depends on the cards that take part.
    Conditional,
}

/// A candidate recipe with its match against the card.
pub struct Candidate {
    pub index: u16,
    /// Specificity of the hex entity, `0` for no match; `None` where the recipe
    /// declares none.
    pub hex: Option<u32>,
    /// Specificity of the root entity, `0` for no match; `None` where the recipe
    /// declares none.
    pub root: Option<u32>,
    /// The requirements on the soul's stacks can be met.
    pub feasible: bool,
    /// Specificity of those requirements.
    pub has_spec: u32,
    pub duration: Option<Duration>,
    pub start_root: FlagOps,
    pub start_hex: FlagOps,
}

/// Every declared entity matches, and the requirements are feasible.
pub open spec fn eligible(c: Candidate, is_hex: bool) -> bool {
    &&& c.hex matches Some(s) ==> is_hex && s != 0
    &&& c.root matches Some(s) ==> s != 0
    &&& c.feasible
}

pub open spec fn specificity(s: Option<u32>) -> u32 {
    match s {
        Some(n) => n,
        None => 0,
    }
}

/// `a` ranks above `b`: by hex, then root, then requirements.
pub open spec fn outranks(a: Candidate, b: Candidate) -> bool {
    let ah = specificity(a.hex);
    let bh = specificity(b.hex);
    let ar = specificity(a.root);
    let br = specificity(b.root);
    ah > bh || (ah == bh && (ar > br || (ar == br && a.has_spec > b.has_spec)))
}

/// Position of the best eligible candidate, the first among equals.
pub open spec fn best(cs: Seq<Candidate>, is_hex: bool) -> Option<int>
    decreases cs.len(),
{
    if cs.len() == 0 {
        None
    } else {
        let before = best(cs.drop_last(), is_hex);
        if eligible(cs.last(), is_hex) && (before matches Some(b) ==> outranks(cs.last(), cs[b])) {
            Some(cs.len() - 1)
        } else {
            before
        }
    }
}

fn exec_specificity(s: &Option<u32>) -> (n: u32)
    ensures
        n == specificity(*s),
{
    match s {
        Some(n) => *n,
        None => 0,
    }
}

/// Pick the best eligible candidate.
pub fn pick(cs: &Vec<Candidate>, is_hex: bool) -> (found: Option<usize>)
    ensures
        match found {
            Some(i) => best(cs@, is_hex) == Some(i as int) && i < cs.len(),
            None => best(cs@, is_hex) is None,
        },
{
    let mut found: Option<usize> = None;
    let mut i: usize = 0;
    while i < cs.len()
        invariant
            i <= cs.len(),
            match found {
                Some(k) => k < i && best(cs@.take(i as int), is_hex) == Some(k as int),
                None => best(cs@.take(i as int), is_hex) is None,
            },
        decreases cs.len() - i,
    {
        proof {
            let next = cs@.take(i + 1);
            assert(next.drop_last() =~= cs@.take(i as int));
            assert(next.last() == cs@[i as int]);
        }
        let c = &cs[i];
        let hex_fits: bool = match &c.hex {
            Some(s) => is_hex && *s != 0,
            None => true,
        };
        let root_fits: bool = match &c.root {
            Some(s) => *s != 0,
            None => true,
        };
        if hex_fits && root_fits && c.feasible {
            let better: bool = match found {
                None => true,
                Some(k) => {
                    let b = &cs[k];
                    let ah: u32 = exec_specificity(&c.hex);
                    let bh: u32 = exec_specificity(&b.hex);
                    let ar: u32 = exec_specificity(&c.root);
                    let br: u32 = exec_specificity(&b.root);
                    ah > bh || (ah == bh && (ar > br || (ar == br && c.has_spec > b.has_spec)))
                },
            };
            if better {
                found = Some(i);
            }
        }
        i = i + 1;
    }
    assert(cs@.take(cs.len() as int) =~= cs@);
    found
}

/// The picked candidate is eligible, and no eligible one outranks it.
pub proof fn best_is_greatest(cs: Seq<Candidate>, is_hex: bool)
    ensures
        match best(cs, is_hex) {
            Some(k) => 0 <= k < cs.len() && eligible(cs[k], is_hex) && forall|i: int|
                0 <= i < cs.len() && eligible(#[trigger] cs[i], is_hex) ==> !outranks(
                    cs[i],
                    cs[k],
                ),
            None => forall|i: int| 0 <= i < cs.len() ==> !eligible(#[trigger] cs[i], is_hex),
        },
    decreases cs.len(),
{
    if cs.len() > 0 {
        let init = cs.drop_last();
        best_is_greatest(init, is_hex);
        assert forall|i: int| 0 <= i < cs.len() - 1 implies #[trigger] cs[i] == init[i] by {}
        if let Some(b) = best(init, is_hex) {
            assert(cs[b] == init[b]);
        }
    }
}

/// A recipe that was started on a card.
#[derive(Clone, Copy, Debug, PartialEq, Eq, Structural)]
pub struct Started {
    pub index: u16,
    pub root: u32,
    /// The card again where the recipe declares a hex, else `0`.
    pub hex: u32,
    pub completion_ms: u64,
}

/// Why the best recipe cannot be started.
#[derive(Clone, Copy, Debug, PartialEq, Eq, Structural)]
pub enum TriggerError {
    /// It declares no duration.
    NoDuration { index: u16 },
    /// Its duration is conditional.
    ConditionalDuration { index: u16 },
}

pub open spec fn with_ops(flags: u32, ops: FlagOps) -> u32 {
    (flags | ops.set) & !ops.clear
}

/// The start takes the slot hold: unless the recipe gives it back, on the hex or
/// else on the root.
pub open spec fn takes_slot(c: Candidate) -> bool {
    if c.hex is Some && c.start_hex.slot_hold is Some {
        c.start_hex.slot_hold->0
    } else if c.start_root.slot_hold is Some {
        c.start_root.slot_hold->0
    } else {
        true
    }
}

fn wants_slot(c: &Candidate) -> (r: bool)
    ensures
        r == takes_slot(*c),
{
    if c.hex.is_some() {
        if let Some(b) = c.start_hex.slot_hold {
            return b;
        }
    }
    match c.start_root.slot_hold {
        Some(b) => b,
        None => true,
    }
}

/// A card at the start of a recipe: its slot is held, its position too where the
/// recipe pins it to a hex, and the recipe's own flag changes come last.
pub open spec fn started_row(e: Env, c: Candidate) -> spec_fn(Card) -> Card {
    |card: Card|
        {
            let held = if takes_slot(c) {
                env::incremented(card.flags_bk, e.bk.spec_count_field(HoldKind::SlotHold))
            } else {
                card.flags_bk
            };
            let rooted = with_ops(card.flags_state, c.start_root);
            Card {
                flags_bk: if c.hex is Some {
                    env::incremented(held, e.bk.spec_count_field(HoldKind::PositionHold))
                } else {
                    held
                },
                flags_state: if c.hex is Some {
                    with_ops(rooted, c.start_hex)
                } else {
                    rooted
                },
                ..card
            }
        }
}

/// The database after starting a recipe on a card at `t`. The holds also reach the
/// later versions of the card.
pub open spec fn started_on(e: Env, db: Db, card_id: u32, c: Candidate, t: u64) -> Db {
    let a = cards::edited(e, db, card_id, t, started_row(e, c));
    let b = if takes_slot(c) {
        cards::hold_propagated(e, a, card_id, t, HoldKind::SlotHold, true)
    } else {
        a
    };
    if c.hex is Some {
        cards::hold_propagated(e, b, card_id, t, HoldKind::PositionHold, true)
    } else {
        b
    }
}

/// The definitions that requirements on a soul can be met from.
pub struct HasCandidates {
    /// Of the cards on top of the soul, from the soul outward.
    pub above: Vec<u16>,
    /// Of the cards queued below it.
    pub below: Vec<u16>,
}

/// The registered definitions of the cards, in order.
pub open spec fn definitions_of(e: Env, cs: Seq<Card>) -> Seq<u16>
    decreases cs.len(),
{
    if cs.len() == 0 {
        Seq::empty()
    } else {
        let before = definitions_of(e, cs.drop_last());
        let packed = cs.last().packed_definition;
        if content::definition(e.catalog.definitions@, packed) is Some {
            before.push(packed)
        } else {
            before
        }
    }
}

fn collect_definitions(e: &Env, cs: &Vec<Card>) -> (out: Vec<u16>)
    ensures
        out@ == definitions_of(*e, cs@),
{
    let mut out: Vec<u16> = Vec::new();
    let mut i: usize = 0;
    while i < cs.len()
        invariant
            i <= cs.len(),
            out@ == definitions_of(*e, cs@.take(i as int)),
        decreases cs.len() - i,
    {
        proof {
            let next = cs@.take(i + 1);
            assert(next.drop_last() =~= cs@.take(i as int));
            assert(next.last() == cs@[i as int]);
        }
        let packed: u16 = cs[i].packed_definition;
        if e.catalog.decode_definition(packed).is_some() {
            out.push(packed);
        }
        i = i + 1;
    }
    assert(cs@.take(cs.len() as int) =~= cs@);
    out
}

/// The soul that contains the card, `0` where none does.
pub open spec fn soul_or_none(e: Env, db: Db, card_id: u32) -> u32 {
    match cards::soul_at(e, db, card_id, e.now_ms) {
        Some(s) => s,
        None => 0,
    }
}

/// Collect what the requirements of a card's recipes are held against: the two
/// stacks of the soul that contains it. A card of the world finds nothing.
pub fn has_candidates(e: &Env, tb: &Tables, card_id: u32, up: u8, down: u8) -> (h: HasCandidates)
    requires
        e.wf(),
    ensures
        h.above@ == definitions_of(
            *e,
            recipe_eval::stack_of(*e, tb@, soul_or_none(*e, tb@, card_id), up),
        ),
        h.below@ == definitions_of(
            *e,
            recipe_eval::stack_of(*e, tb@, soul_or_none(*e, tb@, card_id), down),
        ),
{
    let soul: u32 = match cards::owning_soul(e, tb, card_id) {
        Some(s) => s,
        None => 0,
    };
    HasCandidates {
        above: collect_definitions(e, &recipe_eval::soul_stack(e, tb, soul, up)),
        below: collect_definitions(e, &recipe_eval::soul_stack(e, tb, soul, down)),
    }
}

/// The completion time of an action of `secs` seconds from `t`, saturating.
pub open spec fn ends_at(t: u64, secs: u32) -> u64 {
    let end = t + secs * 1_000;
    if end > u64::MAX {
        u64::MAX
    } else {
        end as u64
    }
}

/// Outcome of a card's creation: the best matching recipe, if any, is started at
/// the time of the card's row. `binds` tells whether its requirements on the soul
/// could be bound; where not, the holds stay and nothing is scheduled.
pub open spec fn triggered(
    e: Env,
    db: Db,
    card_id: u32,
    time_ms: u64,
    cs: Seq<Candidate>,
    is_hex: bool,
    binds: bool,
) -> (Db, Result<Option<Started>, TriggerError>) {
    match history::prior_at(db.cards, card_id, time_ms) {
        None => (db, Ok(None)),
        Some(card) => if content::definition(e.catalog.definitions@, card.packed_definition) is None {
            (db, Ok(None))
        } else {
            match best(cs, is_hex) {
                None => (db, Ok(None)),
                Some(k) => {
                    let c = cs[k];
                    match c.duration {
                        None => (db, Err(TriggerError::NoDuration { index: c.index })),
                        Some(Duration::Conditional) => (
                            db,
                            Err(TriggerError::ConditionalDuration { index: c.index }),
                        ),
                        Some(Duration::Fixed { secs }) => {
                            let t = history::time(card);
                            (
                                started_on(e, db, card_id, c, t),
                                Ok(
                                    if binds {
                                        Some(
                                            Started {
                                                index: c.index,
                                                root: card_id,
                                                hex: if c.hex is Some {
                                                    card_id
                                                } else {
                                                    0
                                                },
                                                completion_ms: ends_at(t, secs),
                                            },
                                        )
                                    } else {
                                        None
                                    },
                                ),
                            )
                        },
                    }
                },
            }
        },
    }
}

/// Start the best matching recipe on a freshly created card.
pub fn trigger(
    e: &Env,
    tb: &mut Tables,
    card_id: u32,
    time_ms: u64,
    candidates: &Vec<Candidate>,
    is_hex: bool,
    binds: bool,
) -> (r: Result<Option<Started>, TriggerError>)
    requires
        e.wf(),
    ensures
        (final(tb)@, r) == triggered(
            *e,
            old(tb)@,
            card_id,
            time_ms,
            candidates@,
            is_hex,
            binds,
        ),
{
    let card: Card = match cards::prior_at(tb, card_id, time_ms) {
        None => {
            return Ok(None);
        },
        Some(c) => c,
    };
    if e.catalog.decode_definition(card.packed_definition).is_none() {
        return Ok(None);
    }
    let k: usize = match pick(candidates, is_hex) {
        None => {
            return Ok(None);
        },
        Some(k) => k,
    };
    let c = &candidates[k];
    let secs: u32 = match &c.duration {
        None => {
            return Err(TriggerError::NoDuration { index: c.index });
        },
        Some(Duration::Conditional) => {
            return Err(TriggerError::ConditionalDuration { index: c.index });
        },
        Some(Duration::Fixed { secs }) => *secs,
    };
    let t: u64 = crate::packed::valid_at_time(card.valid_at);
    let span: u64 = secs as u64 * 1_000;
    let completion_ms: u64 = if t > u64::MAX - span {
        u64::MAX
    } else {
        t + span
    };
    let pinned: bool = c.hex.is_some();
    let slotted: bool = wants_slot(c);
    if let Some(found) = cards::prior_at(tb, card_id, t) {
        let mut row = found;
        if slotted {
            row.flags_bk = env::increment(row.flags_bk, e.bk.count_field(HoldKind::SlotHold));
        }
        row.flags_state = (row.flags_state | c.start_root.set) & !c.start_root.clear;
        if pinned {
            row.flags_bk = env::increment(row.flags_bk, e.bk.count_field(HoldKind::PositionHold));
            row.flags_state = (row.flags_state | c.start_hex.set) & !c.start_hex.clear;
        }
        let _ = cards::write_at(e, tb, row, t);
    }
    if slotted {
        cards::propagate_hold_forward(e, tb, card_id, t, HoldKind::SlotHold, true);
    }
    if pinned {
        cards::propagate_hold_forward(e, tb, card_id, t, HoldKind::PositionHold, true);
    }
    if !binds {
        return Ok(None);
    }
    Ok(
        Some(
            Started {
                index: c.index,
                root: card_id,
                hex: if pinned {
                    card_id
                } else {
                    0
                },
                completion_ms,
            },
        ),
    )
}

} // verus!
