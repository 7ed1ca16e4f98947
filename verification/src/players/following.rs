//! What follows from the writes of cards for souls and players: counters, mirrors,
//! pending phases and blocks.
use vstd::prelude::*;

use crate::cards::cards;
use crate::cards::cards::Card;
use crate::cards::env::Env;
use crate::cards::outcomes;
use crate::content::Catalog;
use crate::history;
use crate::packed;
use crate::players::lifecycle_pending;
use crate::players::lifecycle_pending::LifecyclePending;
use crate::players::players;
use crate::players::souls;
use crate::players::souls::Soul;
use crate::players::souls::StatField;
use crate::players::souls::StatSlot;
use crate::tables::Db;

verus! {

// ---- counters ------------------------------------------------------
/// The number of a word of counters.
pub open spec fn number_of(field: StatField) -> u8 {
    match field {
        StatField::Stats => 0,
        StatField::Fatigued => 1,
        StatField::Injured => 2,
    }
}

/// The tracked names: four virtues, each plain, fatigued and injured.
pub open spec fn tracked_name(field: u8, byte: u8) -> Seq<char> {
    if field == 0 {
        if byte == 0 {
            "corpus"@
        } else if byte == 1 {
            "anima"@
        } else if byte == 2 {
            "sollertia"@
        } else {
            "aether"@
        }
    } else if field == 1 {
        if byte == 0 {
            "corpus-"@
        } else if byte == 1 {
            "anima-"@
        } else if byte == 2 {
            "sollertia-"@
        } else {
            "aether-"@
        }
    } else {
        if byte == 0 {
            "corpus-i"@
        } else if byte == 1 {
            "anima-i"@
        } else if byte == 2 {
            "sollertia-i"@
        } else {
            "aether-i"@
        }
    }
}

/// A definition with one of the tracked names feeds the counter of that name, and one
/// with none of them feeds none.
pub proof fn tracked_definitions_feed_their_counter(c: Catalog, def: u16, field: u8, byte: u8)
    requires
        field < 3,
        byte < 4,
    ensures
        souls::names(c, tracked_name(field, byte), def) && (forall|f: u8, b: u8|
            f < 3 && b < 4 && (f, b) != (field, byte) ==> !souls::names(
                c,
                #[trigger] tracked_name(f, b),
                def,
            )) ==> (souls::slot_of(c, def) matches Some(x) && number_of(x.field) == field
            && x.byte_index == byte),
        (forall|f: u8, b: u8|
            f < 3 && b < 4 ==> !souls::names(c, #[trigger] tracked_name(f, b), def))
            ==> souls::slot_of(c, def) is None,
{
    assert(tracked_name(0, 0) == "corpus"@ && tracked_name(0, 1) == "anima"@ && tracked_name(0, 2)
        == "sollertia"@ && tracked_name(0, 3) == "aether"@);
    assert(tracked_name(1, 0) == "corpus-"@ && tracked_name(1, 1) == "anima-"@ && tracked_name(1, 2)
        == "sollertia-"@ && tracked_name(1, 3) == "aether-"@);
    assert(tracked_name(2, 0) == "corpus-i"@ && tracked_name(2, 1) == "anima-i"@ && tracked_name(
        2,
        2,
    ) == "sollertia-i"@ && tracked_name(2, 3) == "aether-i"@);
}

/// Stepping a counter of a soul changes the byte of that counter, by one, and no other,
/// from then on and not before; other souls are left alone.
pub proof fn counters_step_by_one(
    db: Db,
    soul: u32,
    x: StatSlot,
    delta: i8,
    t: u64,
    id: u32,
    at: u64,
    f: int,
    b: int,
)
    requires
        t < packed::TIME_RADIX,
        soul != 0,
        x.byte_index < 4,
        history::distinct_versions(db.souls),
        history::key_free(db.souls, packed::valid_at_key(t, db.next_sequence)),
        history::prior_at(db.souls, soul, t) is Some,
        history::prior_at(db.souls, id, at) is Some,
        0 <= f < 3,
        0 <= b < 4,
    ensures
        ({
            let d = souls::slot_delta(db, soul, x, delta, t);
            let was = outcomes::byte_of(
                outcomes::word_of(history::prior_at(db.souls, id, at)->0, f),
                b,
            );
            let hit = id == soul && at >= t && f == number_of(x.field) && b == x.byte_index;
            history::prior_at(d.souls, id, at) matches Some(s) && outcomes::byte_of(
                outcomes::word_of(s, f),
                b,
            ) == if hit && delta > 0 && was < 255 {
                was + 1
            } else if hit && delta <= 0 && was > 0 {
                was - 1
            } else {
                was
            }
        }),
{
    outcomes::lemma_counter_change(
        db.souls,
        db.next_sequence,
        soul,
        number_of(x.field),
        x.byte_index,
        delta,
        t,
        id,
        at,
        f,
        b,
    );
}

/// What a card counts for: it is alive, no soul of a player itself, and owned by a card
/// that is, or lies in, the soul it counts for; its definition feeds the counter.
pub proof fn cards_count_for_the_soul_that_holds_them(e: Env, db: Db, c: Card)
    ensures
        souls::card_contribution(e, db, c) matches Some((s, x)) ==> c.flags_state & e.state.dead
            == 0 && c.flags_state & e.state.is_owned_by_player == 0 && c.owner_id != 0
            && cards::soul_at(e, db, c.owner_id, e.now_ms) == Some(s) && souls::slot_of(
            e.catalog,
            c.packed_definition,
        ) == Some(x),
        c.flags_state & e.state.dead == 0 && c.flags_state & e.state.is_owned_by_player == 0
            && c.owner_id != 0 && cards::soul_at(e, db, c.owner_id, e.now_ms) is Some
            && souls::slot_of(e.catalog, c.packed_definition) is Some ==> souls::card_contribution(
            e,
            db,
            c,
        ) is Some,
        souls::blueprint_contribution(e, db, c) matches Some(s) ==> c.flags_state & e.state.dead == 0
            && c.packed_definition / 4096 == souls::BLUEPRINT_CARD_TYPE && c.owner_id != 0
            && cards::soul_at(e, db, c.owner_id, e.now_ms) == Some(s),
{
}

/// A counted card that comes to be adds one to its counter; one that goes takes one
/// away; one that stays where it is changes nothing.
pub proof fn counters_follow_the_cards(
    db: Db,
    soul: u32,
    x: StatSlot,
    t: u64,
)
    ensures
        souls::stat_shift(db, None, Some((soul, x)), t) == souls::slot_delta(db, soul, x, 1, t),
        souls::stat_shift(db, Some((soul, x)), None, t) == souls::slot_delta(
            db,
            soul,
            x,
            (-1) as i8,
            t,
        ),
        souls::stat_shift(db, Some((soul, x)), Some((soul, x)), t) == db,
        souls::stat_shift(db, None, None, t) == db,
{
}

/// A counted card that goes from one soul to another takes one away from the first and
/// adds one to the second.
pub proof fn counters_move_with_the_cards(
    db: Db,
    from: u32,
    to: u32,
    x: StatSlot,
    t: u64,
    at: u64,
)
    requires
        t < packed::TIME_RADIX,
        from != 0,
        to != 0,
        from != to,
        at >= t,
        x.byte_index < 4,
        history::distinct_versions(db.souls),
        history::key_free(db.souls, packed::valid_at_key(t, db.next_sequence)),
        ({
            let mid = souls::slot_delta(db, from, x, (-1) as i8, t);
            &&& history::distinct_versions(mid.souls)
            &&& history::key_free(mid.souls, packed::valid_at_key(t, mid.next_sequence))
        }),
        history::prior_at(db.souls, from, t) is Some,
        history::prior_at(db.souls, to, t) is Some,
        history::prior_at(db.souls, from, at) is Some,
        history::prior_at(db.souls, to, at) is Some,
    ensures
        ({
            let f = number_of(x.field) as int;
            let b = x.byte_index as int;
            let d = souls::stat_shift(db, Some((from, x)), Some((to, x)), t);
            let lost = outcomes::byte_of(
                outcomes::word_of(history::prior_at(db.souls, from, at)->0, f),
                b,
            );
            let won = outcomes::byte_of(
                outcomes::word_of(history::prior_at(db.souls, to, at)->0, f),
                b,
            );
            &&& history::prior_at(d.souls, from, at) matches Some(s) && outcomes::byte_of(
                outcomes::word_of(s, f),
                b,
            ) == if lost > 0 {
                lost - 1
            } else {
                0
            }
            &&& history::prior_at(d.souls, to, at) matches Some(s) && outcomes::byte_of(
                outcomes::word_of(s, f),
                b,
            ) == if won < 255 {
                won + 1
            } else {
                won
            }
        }),
{
    let f = number_of(x.field) as int;
    let b = x.byte_index as int;
    let mid = souls::slot_delta(db, from, x, (-1) as i8, t);
    counters_step_by_one(db, from, x, (-1) as i8, t, from, at, f, b);
    counters_step_by_one(db, from, x, (-1) as i8, t, to, at, f, b);
    counters_step_by_one(db, from, x, (-1) as i8, t, to, t, f, b);
    counters_step_by_one(mid, to, x, 1, t, from, at, f, b);
    counters_step_by_one(mid, to, x, 1, t, to, at, f, b);
}

/// A blueprint that goes from one soul to another takes one from the active blueprints
/// of the first and adds one to those of the second.
pub proof fn active_blueprints_move_with_the_cards(db: Db, from: u32, to: u32)
    requires
        from != to,
        souls::private_index(db.soul_privates, from) is Some,
        souls::private_index(db.soul_privates, to) is Some,
        ({
            let mid = souls::blueprint_delta(db, from, (-1) as i8);
            souls::private_index(mid.soul_privates, to) == souls::private_index(
                db.soul_privates,
                to,
            )
        }),
    ensures
        ({
            let i = souls::private_index(db.soul_privates, from)->0;
            let j = souls::private_index(db.soul_privates, to)->0;
            let d = souls::blueprint_shift(db, Some(from), Some(to));
            let lost = db.soul_privates[i].active_blueprints;
            let won = db.soul_privates[j].active_blueprints;
            &&& d.soul_privates[i].active_blueprints == if lost > 0 {
                lost - 1
            } else {
                0
            }
            &&& d.soul_privates[j].active_blueprints == if won < 255 {
                won + 1
            } else {
                won as int
            }
            &&& d.soul_privates[i].blueprints_0 == db.soul_privates[i].blueprints_0
        }),
{
    souls::private_index_found(db.soul_privates, from);
    souls::private_index_found(db.soul_privates, to);
}

/// A soul row follows its card: it shows the owner and the place of the card that was
/// written, and keeps its counters, which start at nothing.
pub proof fn soul_rows_mirror_their_card(db: Db, card: Card, t: u64)
    requires
        t < packed::TIME_RADIX,
        history::distinct_versions(db.souls),
        card.packed_definition / 4096 == souls::SOUL_CARD_TYPE,
    ensures
        history::prior_at(souls::soul_mirrored(db, card, t).souls, card.card_id, t) matches Some(s)
            && s.owner_id == card.owner_id && s.macro_zone == card.macro_zone && s.micro_location
            == card.micro_location && match history::prior_at(db.souls, card.card_id, t) {
            Some(p) => s.stats == p.stats && s.fatigued == p.fatigued && s.injured == p.injured,
            None => s.stats == 0 && s.fatigued == 0 && s.injured == 0,
        },
{
    history::prior_at_is_greatest(db.souls, card.card_id, t);
    packed::valid_at_round_trip(t, db.next_sequence);
    let d = souls::soul_mirrored(db, card, t);
    let old_row = history::prior_at(db.souls, card.card_id, t);
    let row = Soul {
        valid_at: packed::valid_at_key(t, db.next_sequence),
        data_shard: match old_row {
            Some(s) => s.data_shard,
            None => cards::DATA_SHARD,
        },
        card_id: card.card_id,
        owner_id: card.owner_id,
        macro_zone: card.macro_zone,
        micro_location: card.micro_location,
        stats: match old_row {
            Some(s) => s.stats,
            None => 0,
        },
        fatigued: match old_row {
            Some(s) => s.fatigued,
            None => 0,
        },
        injured: match old_row {
            Some(s) => s.injured,
            None => 0,
        },
    };
    history::read_over_write(db.souls, row, t);
    assert(d.souls == history::stored(db.souls, row, t));
}

// ---- phases --------------------------------------------------------
/// The summary of a player's phases: it counts none exactly where the player has none,
/// and otherwise its end is that of one of the player's phases, and no later than any.
pub proof fn summaries_find_the_earliest_end(rows: Seq<LifecyclePending>, player_id: u32, i: int)
    requires
        0 <= i < rows.len(),
        rows[i].player_id == player_id,
    ensures
        ({
            let s = lifecycle_pending::summary(rows, player_id);
            &&& s.0 > 0
            &&& s.1 <= rows[i].expires_at_ms
            &&& s.1 == u64::MAX || exists|k: int|
                0 <= k < rows.len() && (#[trigger] rows[k]).player_id == player_id
                    && rows[k].expires_at_ms == s.1
        }),
{
    lemma_tally(rows, player_id, i);
}

proof fn lemma_tally(rows: Seq<LifecyclePending>, player_id: u32, i: int)
    requires
        0 <= i < rows.len(),
        rows[i].player_id == player_id,
    ensures
        ({
            let s = lifecycle_pending::tally(rows, player_id);
            &&& s.0 > 0
            &&& s.1 <= rows[i].expires_at_ms
            &&& s.1 == u64::MAX || exists|k: int|
                0 <= k < rows.len() && (#[trigger] rows[k]).player_id == player_id
                    && rows[k].expires_at_ms == s.1
        }),
    decreases rows.len(),
{
    let init = rows.drop_last();
    assert(rows[rows.len() - 1] == rows.last());
    if i < init.len() {
        assert(init[i] == rows[i]);
        lemma_tally(init, player_id, i);
    } else {
        lemma_tally_source(init, player_id);
    }
    let b = lifecycle_pending::tally(init, player_id);
    let s = lifecycle_pending::tally(rows, player_id);
    if s.1 != u64::MAX {
        if s.1 == b.1 {
            if i >= init.len() && s.1 == rows.last().expires_at_ms {
                assert(rows[i].expires_at_ms == s.1);
            } else {
                let k = choose|k: int|
                    0 <= k < init.len() && (#[trigger] init[k]).player_id == player_id
                        && init[k].expires_at_ms == b.1;
                assert(rows[k] == init[k]);
            }
        } else {
            assert(rows[rows.len() - 1].expires_at_ms == s.1);
        }
    } else {
        assert(rows[i].player_id == player_id);
    }
}

proof fn lemma_tally_source(rows: Seq<LifecyclePending>, player_id: u32)
    ensures
        lifecycle_pending::tally(rows, player_id).1 == u64::MAX || exists|k: int|
            0 <= k < rows.len() && (#[trigger] rows[k]).player_id == player_id
                && rows[k].expires_at_ms == lifecycle_pending::tally(rows, player_id).1,
    decreases rows.len(),
{
    if rows.len() > 0 {
        let init = rows.drop_last();
        lemma_tally_source(init, player_id);
        assert(rows[rows.len() - 1] == rows.last());
        let b = lifecycle_pending::tally(init, player_id).1;
        if lifecycle_pending::tally(rows, player_id).1 == b && b != u64::MAX {
            let k = choose|k: int|
                0 <= k < init.len() && (#[trigger] init[k]).player_id == player_id
                    && init[k].expires_at_ms == b;
            assert(rows[k] == init[k]);
        }
    }
}

/// The summary counts the player's phases.
pub proof fn summaries_count(rows: Seq<LifecyclePending>, row: LifecyclePending, player_id: u32)
    requires
        rows.len() < u32::MAX,
    ensures
        lifecycle_pending::summary(rows.push(row), player_id).0 == lifecycle_pending::summary(
            rows,
            player_id,
        ).0 + if row.player_id == player_id {
            1int
        } else {
            0int
        },
        lifecycle_pending::summary(Seq::empty(), player_id) == (0u32, 0u64),
{
    lemma_tally_bound(rows, player_id);
    assert(rows.push(row).drop_last() =~= rows);
}

proof fn lemma_tally_bound(rows: Seq<LifecyclePending>, player_id: u32)
    requires
        rows.len() < u32::MAX,
    ensures
        lifecycle_pending::tally(rows, player_id).0 <= rows.len(),
    decreases rows.len(),
{
    if rows.len() > 0 {
        lemma_tally_bound(rows.drop_last(), player_id);
    }
}

proof fn lemma_offender(
    known: Seq<Card>,
    rows: Seq<LifecyclePending>,
    caller: u32,
    now_ms: u64,
    involved: Seq<u32>,
)
    ensures
        lifecycle_pending::gate_walk(known, rows, caller, now_ms, involved).offending matches Some(o)
            ==> rows.contains(o) && o.player_id == caller && o.expires_at_ms
            + lifecycle_pending::BLOCK_GRACE_MS < now_ms && !involved.contains(o.card_id),
    decreases rows.len(),
{
    if rows.len() > 0 {
        let init = rows.drop_last();
        lemma_offender(known, init, caller, now_ms, involved);
        assert(rows[rows.len() - 1] == rows.last());
        if let Some(o) = lifecycle_pending::gate_walk(
            known,
            init,
            caller,
            now_ms,
            involved,
        ).offending {
            let k = choose|k: int| 0 <= k < init.len() && init[k] == o;
            assert(rows[k] == o);
        }
    }
}

/// A block names a phase of the caller that ended longer ago than the grace, which the
/// call does not touch, and how long ago it ended.
pub proof fn blocks_name_an_overdue_phase(db: Db, caller: u32, now_ms: u64, involved: Seq<u32>)
    ensures
        lifecycle_pending::gate(db, caller, now_ms, involved).1 matches Err(b) ==> {
            &&& exists|i: int|
                0 <= i < db.lifecycle_pending.len() && (#[trigger] db.lifecycle_pending[i]).player_id
                    == caller && db.lifecycle_pending[i].card_id == b.card_id
                    && db.lifecycle_pending[i].expires_at_ms == b.expires_at_ms
            &&& b.expires_at_ms + lifecycle_pending::BLOCK_GRACE_MS < now_ms
            &&& b.overdue_ms == now_ms - b.expires_at_ms
            &&& !involved.contains(b.card_id)
        },
        lifecycle_pending::gate(db, caller, now_ms, involved).0.cards == db.cards,
{
    lemma_offender(db.cards, db.lifecycle_pending, caller, now_ms, involved);
    if let Err(b) = lifecycle_pending::gate(db, caller, now_ms, involved).1 {
        let o = lifecycle_pending::gate_walk(
            db.cards,
            db.lifecycle_pending,
            caller,
            now_ms,
            involved,
        ).offending->0;
        let i = choose|i: int|
            0 <= i < db.lifecycle_pending.len() && db.lifecycle_pending[i] == o;
        assert(db.lifecycle_pending[i].player_id == caller);
    }
}

} // verus!
