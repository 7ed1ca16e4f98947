//! Moving cards between surfaces outside of actions: world cells and their
//! occupants.
use vstd::prelude::*;

use crate::cards::cards;
use crate::cards::cards::Card;
use crate::cards::cards::MicroPlace;
use crate::cards::env::Env;
use crate::cards::micro::Micro;
use crate::history;
use crate::packed;
use crate::tables::Db;
use crate::tables::Tables;

verus! {

/// A card at a new location; its position is not asserted.
pub open spec fn moved_to(e: Env, location: u64, m: Micro) -> spec_fn(Card) -> Card {
    |c: Card| cards::placed(e, m, Card { macro_zone: location, ..c })
}

/// Move a card to a location at `time_ms`; nothing happens where it has no row.
pub fn move_to(e: &Env, tb: &mut Tables, card_id: u32, time_ms: u64, location: u64, m: Micro)
    requires
        e.wf(),
    ensures
        final(tb)@ == cards::edited(*e, old(tb)@, card_id, time_ms, moved_to(*e, location, m)),
{
    if let Some(found) = cards::prior_at(tb, card_id, time_ms) {
        let mut c = found;
        c.macro_zone = location;
        m.place(e, &mut c);
        let _ = cards::write_at(e, tb, c, time_ms);
    }
}

/// A cell of a world zone, with no offset inside it.
pub open spec fn world_cell(e: Env, local_q: u8, local_r: u8) -> Micro {
    Micro::Loose {
        local_q,
        local_r,
        x: 0,
        y: 0,
        kind: e.loose_kinds@[packed::WORLD_LAYER as int],
    }
}

/// The placement of a card that stands in the middle of a world cell.
pub fn on_world_cell(e: &Env, local_q: u8, local_r: u8) -> (m: Micro)
    requires
        e.wf(),
    ensures
        m == world_cell(*e, local_q, local_r),
{
    Micro::snap(local_q, local_r, e.loose_kind_for_surface(packed::WORLD_LAYER))
}

/// The card stands loose and alive on a cell.
pub open spec fn stands_at(e: Env, c: Card, location: u64, q: u8, r: u8) -> bool {
    &&& c.macro_zone == location
    &&& !cards::is_dead(e, c)
    &&& cards::placement(e, c) matches Micro::Loose { local_q, local_r, .. } && local_q == q
        && local_r == r
}

/// The row leads to a card that stands on the cell at `t`.
pub open spec fn leads_to_occupant(
    e: Env,
    db: Db,
    row: Card,
    location: u64,
    q: u8,
    r: u8,
    t: u64,
) -> bool {
    &&& row.macro_zone == location
    &&& !cards::is_dead(e, row)
    &&& history::prior_at(db.cards, row.card_id, t) matches Some(c) && stands_at(
        e,
        c,
        location,
        q,
        r,
    )
}

/// Some card stands on the cell at `t`.
pub open spec fn occupied(e: Env, db: Db, location: u64, q: u8, r: u8, t: u64) -> bool {
    exists|i: int|
        0 <= i < db.cards.len() && leads_to_occupant(
            e,
            db,
            #[trigger] db.cards[i],
            location,
            q,
            r,
            t,
        )
}

/// Test whether some card stands on a cell.
pub fn is_occupied(e: &Env, tb: &Tables, location: u64, q: u8, r: u8, time_ms: u64) -> (yes: bool)
    requires
        e.wf(),
    ensures
        yes == occupied(*e, tb@, location, q, r, time_ms),
{
    let mut i: usize = 0;
    while i < tb.cards.len()
        invariant
            i <= tb.cards.len(),
            e.wf(),
            forall|j: int|
                0 <= j < i ==> !leads_to_occupant(
                    *e,
                    tb@,
                    #[trigger] tb@.cards[j],
                    location,
                    q,
                    r,
                    time_ms,
                ),
        decreases tb.cards.len() - i,
    {
        let row = tb.cards[i];
        if row.macro_zone == location && row.flags_state & e.state.dead == 0 {
            if let Some(c) = cards::prior_at(tb, row.card_id, time_ms) {
                if c.macro_zone == location && c.flags_state & e.state.dead == 0 {
                    if let Micro::Loose { local_q, local_r, .. } = cards::micro_of(e, &c) {
                        if local_q == q && local_r == r {
                            assert(leads_to_occupant(
                                *e,
                                tb@,
                                tb@.cards[i as int],
                                location,
                                q,
                                r,
                                time_ms,
                            ));
                            return true;
                        }
                    }
                }
            }
        }
        i = i + 1;
    }
    false
}

} // verus!
