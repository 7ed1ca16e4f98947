//! Placing cards: on a stack or loose, and in bulk.
//!
//! How a stack placement resolves is planned by a model that the client shares;
//! the planner is handed in, and this module gives it its view of the cards and
//! carries its plan out.
use vstd::prelude::*;

use crate::cards::cards as owned;
use crate::history;
use crate::shard::cards;
use crate::shard::cards::Card;
use crate::shard::cards::MicroPlace;
use crate::shard::model;
use crate::shard::model::Micro;
use crate::shard::tables::Db;
use crate::shard::tables::Env;
use crate::shard::tables::Tables;
use crate::time;
use crate::time::TimeDrift;

verus! {

/// A placement as it comes over the wire.
#[derive(Clone, Copy, Debug, PartialEq, Eq, Structural)]
pub struct Placement {
    /// 0 for a stack, which reads `parent_id` and `direction`; 1 for loose, which
    /// reads the rest.
    pub kind: u8,
    pub parent_id: u32,
    pub direction: u8,
    pub surface: u8,
    pub macro_zone: u64,
    pub q: u8,
    pub r: u8,
    /// `[x:i16 | y:i16]`.
    pub xy: u32,
}

pub const PLACEMENT_STACK: u8 = 0;

pub const PLACEMENT_LOOSE: u8 = 1;

/// A placement as the planner takes it.
#[derive(Clone, Copy, Debug, PartialEq, Eq, Structural)]
pub enum StackPlacement {
    Stack { parent_id: u32, direction: u8 },
    Loose { surface: u8, macro_zone: u64, q: u8, r: u8, x: i16, y: i16 },
}

/// One write of a plan.
#[derive(Clone, Copy, Debug, PartialEq, Eq, Structural)]
pub struct PlaceWrite {
    pub card_id: u32,
    pub macro_zone: u64,
    pub micro: Micro,
}

/// Why cards cannot be placed; `R` is the planner's reason.
pub enum PlaceError<R> {
    Time(TimeDrift),
    UnknownKind { kind: u8 },
    /// The planner refuses.
    Refused(R),
    /// The parallel arrays differ in length.
    LengthMismatch,
    CardNotFound { card_id: u32 },
}

/// Reading of a 16-bit field as a signed number, cut to 12 signed bits.
pub open spec fn offset12(v: int) -> i16 {
    let s = if v >= 0x8000 {
        v - 0x1_0000
    } else {
        v
    };
    (if s < -2048 {
        -2048
    } else if s > 2047 {
        2047
    } else {
        s
    }) as i16
}

fn cut12(v: u32) -> (s: i16)
    requires
        v < 0x1_0000,
    ensures
        s == offset12(v as int),
{
    let s: i32 = if v >= 0x8000 {
        v as i32 - 0x1_0000
    } else {
        v as i32
    };
    if s < -2048 {
        -2048
    } else if s > 2047 {
        2047
    } else {
        s as i16
    }
}

/// Unpack the within-cell offset of a loose placement, clamped to what a loose
/// cell can store.
pub fn unpack_xy(xy: u32) -> (o: (i16, i16))
    ensures
        o == (offset12(xy as int / 0x1_0000), offset12(xy as int % 0x1_0000)),
        -2048 <= o.0 <= 2047,
        -2048 <= o.1 <= 2047,
{
    (cut12(xy / 0x1_0000), cut12(xy % 0x1_0000))
}

/// The planner's form of a wire placement; `None` for an unknown kind.
pub open spec fn planned_form(p: Placement) -> Option<StackPlacement> {
    if p.kind == PLACEMENT_STACK {
        Some(StackPlacement::Stack { parent_id: p.parent_id, direction: p.direction })
    } else if p.kind == PLACEMENT_LOOSE {
        Some(
            StackPlacement::Loose {
                surface: p.surface,
                macro_zone: p.macro_zone,
                q: p.q,
                r: p.r,
                x: offset12(p.xy as int / 0x1_0000),
                y: offset12(p.xy as int % 0x1_0000),
            },
        )
    } else {
        None
    }
}

/// Map a wire placement to the planner's form.
pub fn to_stack_placement(p: &Placement) -> (s: Option<StackPlacement>)
    ensures
        s == planned_form(*p),
{
    if p.kind == PLACEMENT_STACK {
        Some(StackPlacement::Stack { parent_id: p.parent_id, direction: p.direction })
    } else if p.kind == PLACEMENT_LOOSE {
        let o: (i16, i16) = unpack_xy(p.xy);
        Some(
            StackPlacement::Loose {
                surface: p.surface,
                macro_zone: p.macro_zone,
                q: p.q,
                r: p.r,
                x: o.0,
                y: o.1,
            },
        )
    } else {
        None
    }
}

// ---- the planner's view --------------------------------------------
/// What the planner sees of a card.
#[derive(Clone, Copy, Debug, PartialEq, Eq, Structural)]
pub struct CardView {
    pub card_id: u32,
    pub owner_id: u32,
    pub micro_location: u32,
    pub macro_zone: u64,
    pub packed_definition: u16,
    pub flags: u32,
    pub stock: u64,
}

pub open spec fn view_of(c: Card) -> CardView {
    CardView {
        card_id: c.card_id,
        owner_id: c.owner_id,
        micro_location: c.micro_location,
        macro_zone: c.macro_zone,
        packed_definition: c.packed_definition,
        flags: c.flags,
        stock: c.stock,
    }
}

fn to_view(c: &Card) -> (v: CardView)
    ensures
        v == view_of(*c),
{
    CardView {
        card_id: c.card_id,
        owner_id: c.owner_id,
        micro_location: c.micro_location,
        macro_zone: c.macro_zone,
        packed_definition: c.packed_definition,
        flags: c.flags,
        stock: c.stock,
    }
}

/// The card in force at `time_ms`.
pub fn card_at(tb: &Tables, card_id: u32, time_ms: u64) -> (v: Option<CardView>)
    ensures
        v == match history::prior_at(tb@.cards, card_id, time_ms) {
            Some(c) => Some(view_of(c)),
            None => None,
        },
{
    match cards::prior_at(tb, card_id, time_ms) {
        Some(c) => Some(to_view(&c)),
        None => None,
    }
}

/// The row shows a card that is a stack member of `root` at `t`.
pub open spec fn member_at(cards: Seq<Card>, id: u32, root: u32, t: u64) -> bool {
    history::prior_at(cards, id, t) matches Some(c) && c.micro_location == root
        && cards::is_member(c)
}

/// The stack members of a root at `t`, each once, in the order in which `prefix`
/// first shows them.
pub open spec fn member_ids(cards: Seq<Card>, prefix: Seq<Card>, root: u32, t: u64) -> Seq<u32>
    decreases prefix.len(),
{
    if prefix.len() == 0 {
        Seq::empty()
    } else {
        let before = member_ids(cards, prefix.drop_last(), root, t);
        let row = prefix.last();
        if row.micro_location == root && !before.contains(row.card_id) && member_at(
            cards,
            row.card_id,
            root,
            t,
        ) {
            before.push(row.card_id)
        } else {
            before
        }
    }
}

/// Every current stack member of a root, each once.
pub fn members_of(tb: &Tables, root_id: u32, now_ms: u64) -> (views: Vec<CardView>)
    ensures
        ({
            let ids = member_ids(tb@.cards, tb@.cards, root_id, now_ms);
            &&& views.len() == ids.len()
            &&& forall|i: int|
                0 <= i < ids.len() ==> #[trigger] views@[i] == view_of(
                    history::prior_at(tb@.cards, ids[i], now_ms)->0,
                )
        }),
{
    let mut ids: Vec<u32> = Vec::new();
    let mut out: Vec<CardView> = Vec::new();
    let mut i: usize = 0;
    while i < tb.cards.len()
        invariant
            i <= tb.cards.len(),
            ids@ == member_ids(tb@.cards, tb@.cards.take(i as int), root_id, now_ms),
            out.len() == ids.len(),
            forall|j: int|
                0 <= j < ids.len() ==> #[trigger] out@[j] == view_of(
                    history::prior_at(tb@.cards, ids@[j], now_ms)->0,
                ),
        decreases tb.cards.len() - i,
    {
        let row = tb.cards[i];
        proof {
            let next = tb@.cards.take(i + 1);
            assert(next.drop_last() =~= tb@.cards.take(i as int));
            assert(next.last() == row);
        }
        if row.micro_location == root_id && !owned::holds_id(&ids, row.card_id) {
            if let Some(c) = cards::prior_at(tb, row.card_id, now_ms) {
                if c.micro_location == root_id && cards::micro_is_card(&c) {
                    ids.push(row.card_id);
                    out.push(to_view(&c));
                }
            }
        }
        i = i + 1;
    }
    assert(tb@.cards.take(tb@.cards.len() as int) =~= tb@.cards);
    out
}

// ---- carrying a plan out -------------------------------------------
/// A card at a new position; its state and holds stay.
pub open spec fn put(macro_zone: u64, m: Micro) -> spec_fn(Card) -> Card {
    |c: Card| cards::placed(m, Card { macro_zone, ..c })
}

fn put_card(e: &Env, tb: &mut Tables, card_id: u32, time_ms: u64, macro_zone: u64, m: Micro) -> (found:
    bool)
    ensures
        final(tb)@ == cards::edited(*e, old(tb)@, card_id, time_ms, put(macro_zone, m)),
        found == (history::prior_at(old(tb)@.cards, card_id, time_ms) is Some),
{
    match cards::prior_at(tb, card_id, time_ms) {
        None => false,
        Some(found) => {
            let mut c = found;
            c.macro_zone = macro_zone;
            m.place(&mut c);
            let _ = cards::write_at(e, tb, c, time_ms);
            true
        },
    }
}

/// `db` after the writes of a plan at `t`.
pub open spec fn plan_applied(e: Env, db: Db, t: u64, writes: Seq<PlaceWrite>) -> Db
    decreases writes.len(),
{
    if writes.len() == 0 {
        db
    } else {
        let w = writes.last();
        cards::edited(
            e,
            plan_applied(e, db, t, writes.drop_last()),
            w.card_id,
            t,
            put(w.macro_zone, w.micro),
        )
    }
}

/// Carry the writes of a plan out.
pub fn apply_plan(e: &Env, tb: &mut Tables, now_ms: u64, writes: &Vec<PlaceWrite>)
    ensures
        final(tb)@ == plan_applied(*e, old(tb)@, now_ms, writes@),
{
    let ghost d = tb@;
    let mut i: usize = 0;
    assert(writes@.take(0) =~= Seq::empty());
    while i < writes.len()
        invariant
            i <= writes.len(),
            tb@ == plan_applied(*e, d, now_ms, writes@.take(i as int)),
        decreases writes.len() - i,
    {
        proof {
            let next = writes@.take(i + 1);
            assert(next.drop_last() =~= writes@.take(i as int));
            assert(next.last() == writes@[i as int]);
        }
        let w = writes[i];
        let _ = put_card(e, tb, w.card_id, now_ms, w.macro_zone, w.micro);
        i = i + 1;
    }
    assert(writes@.take(writes.len() as int) =~= writes@);
}

/// Outcome of a placement for a given answer of the planner.
pub open spec fn placed_by<R>(e: Env, db: Db, now: u64, answer: Result<Vec<PlaceWrite>, R>) -> (
    Db,
    Result<(), PlaceError<R>>,
) {
    match answer {
        Err(reason) => (db, Err(PlaceError::Refused(reason))),
        Ok(writes) => (plan_applied(e, db, now, writes@), Ok(())),
    }
}

/// Place a card at a caller-specified position. The planner decides; the source
/// and whatever moves along are written at the client's time. No owner changes.
pub fn place_card<R, P: Fn(&Tables, u32, StackPlacement, u32, u64) -> Result<Vec<PlaceWrite>, R>>(
    e: &Env,
    tb: &mut Tables,
    client_time_ms: u64,
    caller_player_id: u32,
    card_id: u32,
    placement: &Placement,
    plan_place: &P,
) -> (r: Result<(), PlaceError<R>>)
    requires
        forall|t: &Tables, id: u32, p: StackPlacement, caller: u32, now: u64| #[trigger]
            plan_place.requires((t, id, p, caller, now)),
    ensures
        match time::resolved(e.now_ms, client_time_ms, cards::TIME_DRIFT_BUFFER_MS) {
            Err(drift) => r == Err::<(), PlaceError<R>>(PlaceError::Time(drift)) && final(tb)@
                == old(tb)@,
            Ok(now) => match planned_form(*placement) {
                None => r == Err::<(), PlaceError<R>>(
                    PlaceError::UnknownKind { kind: placement.kind },
                ) && final(tb)@ == old(tb)@,
                Some(p) => exists|answer: Result<Vec<PlaceWrite>, R>|
                    {
                        &&& #[trigger] plan_place.ensures(
                            (&*old(tb), card_id, p, caller_player_id, now),
                            answer,
                        )
                        &&& (final(tb)@, r) == placed_by(*e, old(tb)@, now, answer)
                    },
            },
        },
{
    let now_ms: u64 = match cards::effective_now_ms(e, client_time_ms) {
        Err(drift) => {
            return Err(PlaceError::Time(drift));
        },
        Ok(t) => t,
    };
    let p: StackPlacement = match to_stack_placement(placement) {
        None => {
            return Err(PlaceError::UnknownKind { kind: placement.kind });
        },
        Some(p) => p,
    };
    let answer = plan_place(&*tb, card_id, p, caller_player_id, now_ms);
    let ghost told = answer;
    match answer {
        Err(reason) => {
            assert((tb@, Err::<(), PlaceError<R>>(PlaceError::Refused(reason))) == placed_by(
                *e,
                old(tb)@,
                now_ms,
                told,
            ));
            Err(PlaceError::Refused(reason))
        },
        Ok(writes) => {
            apply_plan(e, tb, now_ms, &writes);
            assert((tb@, Ok::<(), PlaceError<R>>(())) == placed_by(*e, old(tb)@, now_ms, told));
            Ok(())
        },
    }
}

// ---- bulk moves ----------------------------------------------------
/// One position to write verbatim: `stack_state` is the placement byte.
pub open spec fn moved_one(
    e: Env,
    b: (Db, Result<(), PlaceError<()>>),
    t: u64,
    card_id: u32,
    macro_zone: u64,
    micro_location: u32,
    stack_state: u8,
) -> (Db, Result<(), PlaceError<()>>) {
    if b.1 is Err {
        b
    } else if history::prior_at(b.0.cards, card_id, t) is None {
        (b.0, Err(PlaceError::CardNotFound { card_id }))
    } else {
        (
            cards::edited(
                e,
                b.0,
                card_id,
                t,
                put(macro_zone, model::decoded(micro_location, stack_state as u32)),
            ),
            Ok(()),
        )
    }
}

/// Outcome of the first `n` positions of a bulk move.
pub open spec fn moved_first(
    e: Env,
    db: Db,
    t: u64,
    ids: Seq<u32>,
    zones: Seq<u64>,
    micros: Seq<u32>,
    stacks: Seq<u8>,
    n: nat,
) -> (Db, Result<(), PlaceError<()>>)
    decreases n,
{
    if n == 0 {
        (db, Ok(()))
    } else {
        moved_one(
            e,
            moved_first(e, db, t, ids, zones, micros, stacks, (n - 1) as nat),
            t,
            ids[n - 1],
            zones[n - 1],
            micros[n - 1],
            stacks[n - 1],
        )
    }
}

proof fn lemma_move_stops(
    e: Env,
    db: Db,
    t: u64,
    ids: Seq<u32>,
    zones: Seq<u64>,
    micros: Seq<u32>,
    stacks: Seq<u8>,
    m: nat,
    n: nat,
)
    requires
        m <= n,
        moved_first(e, db, t, ids, zones, micros, stacks, m).1 is Err,
    ensures
        moved_first(e, db, t, ids, zones, micros, stacks, n) == moved_first(
            e,
            db,
            t,
            ids,
            zones,
            micros,
            stacks,
            m,
        ),
    decreases n - m,
{
    if m < n {
        lemma_move_stops(e, db, t, ids, zones, micros, stacks, m, (n - 1) as nat);
    }
}

/// Outcome of a bulk move. After an error the tables are for the caller to
/// discard.
pub open spec fn cards_moved(
    e: Env,
    db: Db,
    client_time_ms: u64,
    ids: Seq<u32>,
    zones: Seq<u64>,
    micros: Seq<u32>,
    stacks: Seq<u8>,
) -> (Db, Result<(), PlaceError<()>>) {
    if zones.len() != ids.len() || micros.len() != ids.len() || stacks.len() != ids.len() {
        (db, Err(PlaceError::LengthMismatch))
    } else {
        match time::resolved(e.now_ms, client_time_ms, cards::TIME_DRIFT_BUFFER_MS) {
            Err(drift) => (db, Err(PlaceError::Time(drift))),
            Ok(now) => moved_first(e, db, now, ids, zones, micros, stacks, ids.len()),
        }
    }
}

/// Write resolved positions verbatim, one row per card at the client's time.
pub fn move_cards(
    e: &Env,
    tb: &mut Tables,
    client_time_ms: u64,
    _caller_player_id: u32,
    card_ids: &Vec<u32>,
    macro_zones: &Vec<u64>,
    micro_locations: &Vec<u32>,
    stack_states: &Vec<u8>,
) -> (r: Result<(), PlaceError<()>>)
    ensures
        (final(tb)@, r) == cards_moved(
            *e,
            old(tb)@,
            client_time_ms,
            card_ids@,
            macro_zones@,
            micro_locations@,
            stack_states@,
        ),
{
    let n: usize = card_ids.len();
    if macro_zones.len() != n || micro_locations.len() != n || stack_states.len() != n {
        return Err(PlaceError::LengthMismatch);
    }
    let now_ms: u64 = match cards::effective_now_ms(e, client_time_ms) {
        Err(drift) => {
            return Err(PlaceError::Time(drift));
        },
        Ok(t) => t,
    };
    let ghost d = tb@;
    let mut i: usize = 0;
    while i < n
        invariant
            i <= n,
            n == card_ids.len(),
            macro_zones.len() == n,
            micro_locations.len() == n,
            stack_states.len() == n,
            d == old(tb)@,
            time::resolved(e.now_ms, client_time_ms, cards::TIME_DRIFT_BUFFER_MS) == Ok::<
                u64,
                TimeDrift,
            >(now_ms),
            (tb@, Ok::<(), PlaceError<()>>(())) == moved_first(
                *e,
                d,
                now_ms,
                card_ids@,
                macro_zones@,
                micro_locations@,
                stack_states@,
                i as nat,
            ),
        decreases n - i,
    {
        let m: Micro = Micro::of(micro_locations[i], stack_states[i] as u32);
        let found: bool = put_card(e, tb, card_ids[i], now_ms, macro_zones[i], m);
        if !found {
            proof {
                lemma_move_stops(
                    *e,
                    d,
                    now_ms,
                    card_ids@,
                    macro_zones@,
                    micro_locations@,
                    stack_states@,
                    (i + 1) as nat,
                    n as nat,
                );
            }
            return Err(PlaceError::CardNotFound { card_id: card_ids[i] });
        }
        i = i + 1;
    }
    Ok(())
}

} // verus!
