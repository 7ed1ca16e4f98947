//! What the parts of an action come to, one by one: the rows that a reader finds at
//! its completion.
use vstd::prelude::*;

use crate::cards::outcomes as bits;
use crate::history;
use crate::packed;
use crate::pending_actions;
use crate::pending_actions::PendingAction;
use crate::players::souls as soul_rows;
use crate::players::souls::Soul;
use crate::regions::card_shards::CardShard;
use crate::regions::cards::TileError;
use crate::regions::demotion;
use crate::regions::demotion::Demotion;
use crate::regions::gate_api as stock_ops;
use crate::regions::zones;
use crate::regions::zones::Zone;
use crate::shard::cards;
use crate::shard::cards::Card;
use crate::shard::gate_api;
use crate::shard::gate_api::CardAction;
use crate::shard::gc;
use crate::shard::keys;
use crate::shard::laws;
use crate::shard::model;
use crate::shard::model::HoldField;
use crate::shard::model::Micro;
use crate::shard::oplog;
use crate::shard::oplog::OpLog;
use crate::shard::oplog::StockAspect;
use crate::shard::outcomes;
use crate::shard::place;
use crate::shard::replay;
use crate::shard::replay::AspectOp;
use crate::shard::replay::Op;
use crate::shard::souls;
use crate::shard::tables::Db;
use crate::shard::tables::Env;
use crate::shard::tiles;
use crate::tile_words::Tile;
use crate::time;
use crate::time::TimeDrift;

verus! {

// ---- states of an action -------------------------------------------
/// The state of an action once its cards are checked and bound.
pub open spec fn after_binding(e: Env, db: Db, a: CardAction) -> Db {
    gate_api::carried_on(
        gate_api::run(
            gate_api::check_step(e, a.now_ms, a.bound_ids@, a.bound_masks@),
            db,
            a.bound_ids@.len(),
        ),
        gate_api::bind_step(e, a.now_ms, a.completion_ms, a.bound_ids@, a.bound_masks@),
        a.bound_ids@.len(),
    ).0
}

/// The state of an action before its counters are stepped.
pub open spec fn before_counting(e: Env, db: Db, a: CardAction) -> Db {
    gate_api::run(
        gate_api::unlock_step(a.unlock_targets@, a.unlock_blueprints@),
        outcomes::before_creation(e, db, a, a.creations.defs@.len()),
        a.unlock_targets@.len(),
    ).0
}

/// The state of an action before its stocks are written.
pub open spec fn before_stocking(e: Env, db: Db, a: CardAction) -> Db {
    gate_api::run(
        gate_api::stat_step(a.completion_ms, a.stats),
        before_counting(e, db, a),
        a.stats.souls@.len(),
    ).0
}

/// The state of an action before its stacks are repositioned.
pub open spec fn before_rerooting(e: Env, db: Db, a: CardAction) -> Db {
    gate_api::run(
        gate_api::stock_step(e, a.completion_ms, a.stock_card_ids@, a.stock_values@),
        before_stocking(e, db, a),
        a.stock_card_ids@.len(),
    ).0
}

/// The action does nothing once its cards are destroyed.
pub open spec fn only_destroys(a: CardAction) -> bool {
    &&& a.creations.defs@.len() == 0
    &&& a.unlock_targets@.len() == 0
    &&& a.stats.souls@.len() == 0
    &&& ends_with_stocks(a)
    &&& a.stock_card_ids@.len() == 0
}

/// The action repositions no stack.
pub open spec fn ends_with_stocks(a: CardAction) -> bool {
    a.reroots.ids@.len() == 0
}

// ---- bound cards ---------------------------------------------------
/// Bit `k` of a hold mask.
pub open spec fn asks(mask: u8, k: int) -> bool {
    if k == 1 {
        mask / 2 % 2 == 1
    } else {
        mask / 4 % 2 == 1
    }
}

/// Checks change nothing, and pass where each card passes.
proof fn lemma_checks(e: Env, now_ms: u64, ids: Seq<u32>, masks: Seq<u8>, db: Db, n: nat, i: int)
    requires
        0 <= i < n,
        gate_api::run(gate_api::check_step(e, now_ms, ids, masks), db, n).1 is Ok,
    ensures
        gate_api::conflict(e, db, ids[i], gate_api::mask_of(masks, i), now_ms) is None,
    decreases n,
{
    let step = gate_api::check_step(e, now_ms, ids, masks);
    let before = gate_api::run(step, db, (n - 1) as nat);
    lemma_checks_change_nothing(e, now_ms, ids, masks, db, (n - 1) as nat);
    if i < n - 1 {
        lemma_checks(e, now_ms, ids, masks, db, (n - 1) as nat, i);
    }
}

proof fn lemma_checks_change_nothing(
    e: Env,
    now_ms: u64,
    ids: Seq<u32>,
    masks: Seq<u8>,
    db: Db,
    n: nat,
)
    ensures
        gate_api::run(gate_api::check_step(e, now_ms, ids, masks), db, n).0 == db,
    decreases n,
{
    if n > 0 {
        lemma_checks_change_nothing(e, now_ms, ids, masks, db, (n - 1) as nat);
    }
}

/// An action that goes through took no card that another holds: a card that it wants
/// for itself was claimed and borrowed by nobody when it started, and one that it
/// borrows was claimed by nobody.
pub proof fn actions_bind_free_cards_only(e: Env, db: Db, a: CardAction, i: int, c: Card)
    requires
        gate_api::action_applied(e, db, a).1 is Ok,
        0 <= i < a.bound_ids@.len(),
        i < a.bound_masks@.len(),
        history::prior_at(db.cards, a.bound_ids@[i], a.now_ms) == Some(c),
    ensures
        asks(a.bound_masks@[i], 1) ==> model::hold_value(e.layout, c.flags, HoldField::SlotClaim)
            == 0 && model::hold_value(e.layout, c.flags, HoldField::SlotBorrow) == 0,
        asks(a.bound_masks@[i], 2) ==> model::hold_value(e.layout, c.flags, HoldField::SlotClaim)
            == 0,
{
    lemma_checks(e, a.now_ms, a.bound_ids@, a.bound_masks@, db, a.bound_ids@.len(), i);
}

/// A card whose action is over is found with no position asserted and is otherwise as
/// it was.
pub proof fn finished_cards_assert_no_place(e: Env, db: Db, card_id: u32, t: u64, c: Card)
    requires
        t < packed::TIME_RADIX,
        history::distinct_versions(db.cards),
        history::prior_at(db.cards, card_id, t) == Some(c),
        e.state.dead & (e.state.pos_need | e.state.pos_want) == 0,
    ensures
        ({
            let out = gate_api::edit_outcome(e, db, card_id, t, gate_api::finalized(e));
            &&& out.1 is Ok
            &&& history::prior_at(out.0.cards, card_id, t) matches Some(n) && n.flags
                & (e.state.pos_need | e.state.pos_want) == 0 && n.flags & e.state.dead == c.flags
                & e.state.dead && same_data(n, c) && n.macro_zone == c.macro_zone
                && n.micro_location == c.micro_location
        }),
{
    let pos = e.state.pos_need | e.state.pos_want;
    let n = gate_api::finalized(e)(c);
    lemma_cleared(c.flags, pos, e.state.dead);
    history::prior_at_is_greatest(db.cards, card_id, t);
    laws::write_reads_back(e, db, n, t);
    assert(cards::after_write(e, db, n, t) == cards::row_written(e, db, n, t));
}

proof fn lemma_cleared(word: u32, pos: u32, dead: u32)
    by (bit_vector)
    requires
        dead & pos == 0,
    ensures
        (word & !pos) & pos == 0,
        (word & !pos) & dead == word & dead,
{
}

/// The rows are of one card, with the same owner, definition and stock.
pub open spec fn same_data(a: Card, b: Card) -> bool {
    a.card_id == b.card_id && a.owner_id == b.owner_id && a.packed_definition
        == b.packed_definition && a.stock == b.stock
}

// ---- destroyed cards -----------------------------------------------
/// The last card that an action destroys is found dead at the completion, where the
/// action does nothing after that.
pub proof fn destroyed_cards_are_dead_at_completion(
    e: Env,
    db: Db,
    a: CardAction,
    before: Db,
    c: Card,
)
    requires
        a.completion_ms < packed::TIME_RADIX,
        gate_api::action_applied(e, db, a).1 is Ok,
        a.destroy_ids@.len() > 0,
        only_destroys(a),
        before == gate_api::run(
            gate_api::destroy_step(e, a.completion_ms, a.destroy_ids@),
            after_binding(e, db, a),
            (a.destroy_ids@.len() - 1) as nat,
        ).0,
        history::distinct_versions(before.cards),
        history::prior_at(before.cards, a.destroy_ids@.last(), a.completion_ms) == Some(c),
        !(c.flags % 16 != 0 && c.flags % 16 - 1 == packed::STACK_STATE_DEFERRED),
        (c.flags | e.state.dead) % 256 == c.flags % 256,
        keys::write_takes_free_keys(
            e,
            before,
            Card { flags: c.flags | e.state.dead, ..c },
            a.completion_ms,
            cards::cascade_depth(before),
        ),
    ensures
        ({
            let out = gate_api::action_applied(e, db, a).0;
            history::prior_at(out.cards, a.destroy_ids@.last(), a.completion_ms) matches Some(n)
                && n.flags & e.state.dead == e.state.dead && n.flags & !e.state.dead == c.flags
                & !e.state.dead && same_data(n, c) && n.macro_zone == c.macro_zone
                && n.micro_location == c.micro_location
        }),
{
    lemma_last_destruction(e, db, a);
    lemma_death_is_found(e, before, c, a.destroy_ids@.last(), a.completion_ms);
}

proof fn lemma_last_destruction(e: Env, db: Db, a: CardAction)
    requires
        gate_api::action_applied(e, db, a).1 is Ok,
        a.destroy_ids@.len() > 0,
        only_destroys(a),
    ensures
        ({
            let before = gate_api::run(
                gate_api::destroy_step(e, a.completion_ms, a.destroy_ids@),
                after_binding(e, db, a),
                (a.destroy_ids@.len() - 1) as nat,
            ).0;
            gate_api::action_applied(e, db, a).0 == cards::edited(
                e,
                before,
                a.destroy_ids@.last(),
                a.completion_ms,
                gate_api::died(e),
            )
        }),
{
}

proof fn lemma_death_is_found(e: Env, before: Db, c: Card, id: u32, t: u64)
    requires
        t < packed::TIME_RADIX,
        history::distinct_versions(before.cards),
        history::prior_at(before.cards, id, t) == Some(c),
        !(c.flags % 16 != 0 && c.flags % 16 - 1 == packed::STACK_STATE_DEFERRED),
        (c.flags | e.state.dead) % 256 == c.flags % 256,
        keys::write_takes_free_keys(
            e,
            before,
            Card { flags: c.flags | e.state.dead, ..c },
            t,
            cards::cascade_depth(before),
        ),
    ensures
        ({
            let out = cards::edited(e, before, id, t, gate_api::died(e));
            history::prior_at(out.cards, id, t) matches Some(n) && n.flags & e.state.dead
                == e.state.dead && n.flags & !e.state.dead == c.flags & !e.state.dead && same_data(
                n,
                c,
            ) && n.macro_zone == c.macro_zone && n.micro_location == c.micro_location
        }),
{
    let n = Card { flags: c.flags | e.state.dead, ..c };
    bits::lemma_bits_set(c.flags, e.state.dead);
    history::prior_at_is_greatest(before.cards, id, t);
    let w = n.flags;
    assert(w % 16 == c.flags % 16) by {
        assert(w % 256 % 16 == w % 16);
        assert(c.flags % 256 % 16 == c.flags % 16);
    }
    let row = cards::stamped(e, before, n, t);
    assert(row.flags == w);
    outcomes::writes_are_found(e, before, n, t);
}

// ---- stocks and places ---------------------------------------------
/// The last stock word that an action writes is found on its card at the completion,
/// where the action repositions nothing after that. The card is otherwise as it was.
pub proof fn written_stocks_are_found_at_completion(
    e: Env,
    db: Db,
    a: CardAction,
    before: Db,
    c: Card,
)
    requires
        a.wf(),
        a.completion_ms < packed::TIME_RADIX,
        gate_api::action_applied(e, db, a).1 is Ok,
        a.stock_card_ids@.len() > 0,
        ends_with_stocks(a),
        before == gate_api::run(
            gate_api::stock_step(e, a.completion_ms, a.stock_card_ids@, a.stock_values@),
            before_stocking(e, db, a),
            (a.stock_card_ids@.len() - 1) as nat,
        ).0,
        history::distinct_versions(before.cards),
        history::prior_at(before.cards, a.stock_card_ids@.last(), a.completion_ms) == Some(c),
    ensures
        ({
            let out = gate_api::action_applied(e, db, a).0;
            history::prior_at(out.cards, a.stock_card_ids@.last(), a.completion_ms) matches Some(n)
                && n.stock == a.stock_values@[a.stock_card_ids@.len() - 1] && n.flags == c.flags
                && n.card_id == c.card_id && n.owner_id == c.owner_id && n.packed_definition
                == c.packed_definition && n.macro_zone == c.macro_zone && n.micro_location
                == c.micro_location
        }),
{
    let k = a.stock_card_ids@.len() - 1;
    let n = Card { stock: a.stock_values@[k] as u64, ..c };
    history::prior_at_is_greatest(before.cards, a.stock_card_ids@.last(), a.completion_ms);
    laws::write_reads_back(e, before, n, a.completion_ms);
    assert(cards::after_write(e, before, n, a.completion_ms) == cards::row_written(
        e,
        before,
        n,
        a.completion_ms,
    ));
}

/// The place that a packed location and a stack byte name: a cell where the byte names
/// no branch, else a root, a branch and an index.
pub open spec fn stands_as(c: Card, micro_location: u32, stack: u8) -> bool {
    match cards::placement(c) {
        Micro::Loose { local_q, local_r, x, y } => stack % 16 == 0 && (
        local_q as int, local_r as int) == bits::cell_of(micro_location),
        Micro::Stacked { root, branch, index } => stack % 16 != 0 && root == micro_location
            && branch == stack % 16 - 1 && index == stack / 16,
    }
}

proof fn lemma_put(macro_zone: u64, micro_location: u32, stack: u8, c: Card)
    ensures
        ({
            let n = place::put(macro_zone, model::decoded(micro_location, stack as u32))(c);
            &&& n.macro_zone == macro_zone
            &&& stands_as(n, micro_location, stack)
            &&& same_data(n, c)
            &&& n.flags / 256 == c.flags / 256
            &&& n.flags % 256 == 0 || n.flags % 256 == stack
        }),
{
    let m = model::decoded(micro_location, stack as u32);
    laws::placed_card_reads_back(m, Card { macro_zone, ..c });
}

/// A card that is put at a place in the plain sense, with no host to wait on, is found
/// there.
proof fn lemma_put_is_found(
    e: Env,
    db: Db,
    c: Card,
    t: u64,
    macro_zone: u64,
    micro_location: u32,
    stack: u8,
)
    requires
        t < packed::TIME_RADIX,
        history::distinct_versions(db.cards),
        stack % 16 != 0 ==> stack % 16 - 1 != packed::STACK_STATE_DEFERRED,
        keys::write_takes_free_keys(
            e,
            db,
            place::put(macro_zone, model::decoded(micro_location, stack as u32))(c),
            t,
            cards::cascade_depth(db),
        ),
    ensures
        ({
            let n = place::put(macro_zone, model::decoded(micro_location, stack as u32))(c);
            history::prior_at(cards::after_write(e, db, n, t).cards, c.card_id, t) matches Some(out)
                && out.macro_zone == macro_zone && stands_as(out, micro_location, stack)
                && same_data(out, c) && out.flags / 256 == c.flags / 256
        }),
{
    let n = place::put(macro_zone, model::decoded(micro_location, stack as u32))(c);
    lemma_put(macro_zone, micro_location, stack, c);
    outcomes::writes_are_found(e, db, n, t);
}

/// The last card that an action repositions is found at the completion in the zone and
/// at the place that were given for it, with its state and holds as they were.
pub proof fn repositioned_cards_are_found_at_completion(
    e: Env,
    db: Db,
    a: CardAction,
    before: Db,
    c: Card,
)
    requires
        a.wf(),
        a.completion_ms < packed::TIME_RADIX,
        gate_api::action_applied(e, db, a).1 is Ok,
        a.reroots.ids@.len() > 0,
        ({
            let k = a.reroots.ids@.len() - 1;
            let stack = a.reroots.stack_states@[k];
            &&& before == gate_api::run(
                gate_api::reroot_step(e, a.completion_ms, a.reroots),
                before_rerooting(e, db, a),
                k as nat,
            ).0
            &&& history::distinct_versions(before.cards)
            &&& history::prior_at(before.cards, a.reroots.ids@[k], a.completion_ms) == Some(c)
            &&& stack % 16 != 0 ==> stack % 16 - 1 != packed::STACK_STATE_DEFERRED
            &&& keys::write_takes_free_keys(
                e,
                before,
                place::put(
                    a.reroots.macro_zones@[k],
                    model::decoded(a.reroots.micro_locations@[k], stack as u32),
                )(c),
                a.completion_ms,
                cards::cascade_depth(before),
            )
        }),
    ensures
        ({
            let out = gate_api::action_applied(e, db, a).0;
            let k = a.reroots.ids@.len() - 1;
            history::prior_at(out.cards, a.reroots.ids@[k], a.completion_ms) matches Some(n)
                && n.macro_zone == a.reroots.macro_zones@[k] && stands_as(
                n,
                a.reroots.micro_locations@[k],
                a.reroots.stack_states@[k],
            ) && same_data(n, c) && n.flags / 256 == c.flags / 256
        }),
{
    let k = a.reroots.ids@.len() - 1;
    history::prior_at_is_greatest(before.cards, a.reroots.ids@[k], a.completion_ms);
    lemma_put_is_found(
        e,
        before,
        c,
        a.completion_ms,
        a.reroots.macro_zones@[k],
        a.reroots.micro_locations@[k],
        a.reroots.stack_states@[k],
    );
}

/// The last card of a bulk move is found in the zone and at the place that were given
/// for it.
pub proof fn bulk_moves_put_cards_in_place(
    e: Env,
    db: Db,
    t: u64,
    ids: Seq<u32>,
    zones: Seq<u64>,
    micros: Seq<u32>,
    stacks: Seq<u8>,
    c: Card,
)
    requires
        t < packed::TIME_RADIX,
        ids.len() > 0,
        zones.len() == ids.len(),
        micros.len() == ids.len(),
        stacks.len() == ids.len(),
        ({
            let k = ids.len() - 1;
            let before = place::moved_first(e, db, t, ids, zones, micros, stacks, k as nat);
            &&& before.1 is Ok
            &&& history::distinct_versions(before.0.cards)
            &&& history::prior_at(before.0.cards, ids[k], t) == Some(c)
            &&& stacks[k] % 16 != 0 ==> stacks[k] % 16 - 1 != packed::STACK_STATE_DEFERRED
            &&& keys::write_takes_free_keys(
                e,
                before.0,
                place::put(zones[k], model::decoded(micros[k], stacks[k] as u32))(c),
                t,
                cards::cascade_depth(before.0),
            )
        }),
    ensures
        ({
            let k = ids.len() - 1;
            let out = place::moved_first(e, db, t, ids, zones, micros, stacks, ids.len());
            &&& out.1 is Ok
            &&& history::prior_at(out.0.cards, ids[k], t) matches Some(n) && n.macro_zone
                == zones[k] && stands_as(n, micros[k], stacks[k]) && same_data(n, c) && n.flags
                / 256 == c.flags / 256
        }),
{
    let k = ids.len() - 1;
    let before = place::moved_first(e, db, t, ids, zones, micros, stacks, k as nat);
    history::prior_at_is_greatest(before.0.cards, ids[k], t);
    lemma_put_is_found(e, before.0, c, t, zones[k], micros[k], stacks[k]);
}

// ---- souls ---------------------------------------------------------
/// Stepping a counter of a soul changes the byte that it names, by one, and no other:
/// up for a positive delta, else down, within a byte. The step is seen from its time
/// on, in every later version too, and not before; other souls are left alone.
pub proof fn counters_step_by_one(
    db: Db,
    soul: u32,
    field: u8,
    byte_index: u8,
    delta: i8,
    t: u64,
    id: u32,
    at: u64,
    f: int,
    b: int,
)
    requires
        t < packed::TIME_RADIX,
        soul != 0,
        field < 3,
        byte_index < 4,
        history::distinct_versions(db.souls),
        history::key_free(db.souls, packed::valid_at_key(t, db.next_sequence)),
        history::prior_at(db.souls, soul, t) is Some,
        history::prior_at(db.souls, id, at) is Some,
        0 <= f < 3,
        0 <= b < 4,
    ensures
        ({
            let d = souls::stat_applied(db, soul, field, byte_index, delta, t);
            let was = bits::byte_of(bits::word_of(history::prior_at(db.souls, id, at)->0, f), b);
            let hit = id == soul && at >= t && f == field && b == byte_index;
            history::prior_at(d.souls, id, at) matches Some(s) && bits::byte_of(
                bits::word_of(s, f),
                b,
            ) == if hit && delta > 0 && was < 255 {
                was + 1
            } else if hit && delta <= 0 && was > 0 {
                was - 1
            } else {
                was
            }
        }),
{
    bits::lemma_counter_change(db.souls, db.next_sequence, soul, field, byte_index, delta, t, id, at, f, b);
}

/// After an action whose last part steps a counter, the soul tables are those after the
/// step.
pub proof fn actions_step_their_counters(e: Env, db: Db, a: CardAction)
    requires
        a.wf(),
        gate_api::action_applied(e, db, a).1 is Ok,
        a.stats.souls@.len() > 0,
        a.stock_card_ids@.len() == 0,
        ends_with_stocks(a),
    ensures
        ({
            let k = a.stats.souls@.len() - 1;
            let before = gate_api::run(
                gate_api::stat_step(a.completion_ms, a.stats),
                before_counting(e, db, a),
                k as nat,
            ).0;
            gate_api::action_applied(e, db, a).0 == souls::stat_applied(
                before,
                a.stats.souls@[k],
                a.stats.fields@[k],
                a.stats.bytes@[k],
                a.stats.deltas@[k],
                a.completion_ms,
            )
        }),
{
}

/// A soul row follows its card: it shows the owner and the place of the card that was
/// written, and keeps its counters, which start at nothing.
pub proof fn soul_rows_mirror_their_card(db: Db, card: Card, t: u64)
    requires
        t < packed::TIME_RADIX,
        history::distinct_versions(db.souls),
        card.packed_definition / 4096 == soul_rows::SOUL_CARD_TYPE,
    ensures
        history::prior_at(souls::mirrored(db, card, t).souls, card.card_id, t) matches Some(s)
            && s.owner_id == card.owner_id && s.macro_zone == card.macro_zone && s.micro_location
            == card.micro_location && match history::prior_at(db.souls, card.card_id, t) {
            Some(p) => s.stats == p.stats && s.fatigued == p.fatigued && s.injured == p.injured,
            None => s.stats == 0 && s.fatigued == 0 && s.injured == 0,
        },
{
    history::prior_at_is_greatest(db.souls, card.card_id, t);
    packed::valid_at_round_trip(t, db.next_sequence);
    let d = souls::mirrored(db, card, t);
    let old_row = history::prior_at(db.souls, card.card_id, t);
    let row = Soul {
        valid_at: packed::valid_at_key(t, db.next_sequence),
        data_shard: match old_row {
            Some(s) => s.data_shard,
            None => cards::DATA_SHARD,
        },
        card_id: card.card_id,
        owner_id: card.owner_id,
        macro_zone: card.macro_zone,
        micro_location: card.micro_location,
        stats: match old_row {
            Some(s) => s.stats,
            None => 0,
        },
        fatigued: match old_row {
            Some(s) => s.fatigued,
            None => 0,
        },
        injured: match old_row {
            Some(s) => s.injured,
            None => 0,
        },
    };
    history::read_over_write(db.souls, row, t);
    assert(d.souls == history::stored(db.souls, row, t));
}

/// Discovering a blueprint sets its bit for that soul, the bit of the id less one, and
/// changes no other bit and no other soul.
pub proof fn unlocks_set_one_bit(db: Db, card_id: u32, blueprint_id: u16, other: u16, i: int)
    requires
        1 <= blueprint_id <= 64,
        1 <= other <= 64,
        soul_rows::private_index(db.soul_privates, card_id) is Some,
        0 <= i < db.soul_privates.len(),
    ensures
        ({
            let out = gate_api::unlocked(db, card_id, blueprint_id);
            let k = soul_rows::private_index(db.soul_privates, card_id)->0;
            &&& out.1 is Ok
            &&& 0 <= k < db.soul_privates.len()
            &&& db.soul_privates[k].card_id == card_id
            &&& out.0.soul_privates.len() == db.soul_privates.len()
            &&& out.0.soul_privates[k].blueprints_0 & (1u64 << ((other - 1) as u64)) != 0
                <==> other == blueprint_id || db.soul_privates[k].blueprints_0 & (1u64 << ((other
                - 1) as u64)) != 0
            &&& out.0.soul_privates[k].card_id == card_id
            &&& i != k ==> out.0.soul_privates[i] == db.soul_privates[i]
        }),
{
    soul_rows::private_index_found(db.soul_privates, card_id);
    let k = soul_rows::private_index(db.soul_privates, card_id)->0;
    bits::lemma_bit_joined(
        db.soul_privates[k].blueprints_0,
        (blueprint_id - 1) as u64,
        (other - 1) as u64,
    );
}

// ---- tiles ---------------------------------------------------------
/// The two stocks in a stock word.
pub open spec fn stock_in(word: u64, slot: u8) -> int {
    if slot == 0 {
        word as int % 4
    } else {
        word as int / 4 % 4
    }
}

/// A stock after an effect: less for the first operation, more for the second, set by
/// the third, from none to three.
pub open spec fn stock_becomes(was: int, op: u8, delta: u8) -> int {
    let want = if op == 0 {
        was - delta
    } else if op == 1 {
        was + delta
    } else {
        delta as int
    };
    if want < 0 {
        0
    } else if want > 3 {
        3
    } else {
        want
    }
}

proof fn lemma_tile_card_in_force(
    rows: Seq<Card>,
    candidates: Seq<Card>,
    location: u64,
    q: u8,
    r: u8,
    t: u64,
)
    ensures
        tiles::tile_card_at(rows, candidates, location, q, r, t) matches Some(c)
            ==> history::prior_at(rows, c.card_id, t) == Some(c) && tiles::stands_on(
            c,
            location,
            q,
            r,
        ),
    decreases candidates.len(),
{
    if candidates.len() > 0 {
        lemma_tile_card_in_force(rows, candidates.skip(1), location, q, r, t);
        history::prior_at_is_greatest(rows, candidates[0].card_id, t);
    }
}

/// A tile that is promoted is found as a card that carries it: on the surface, in the
/// zone and on the cell that were named, of the tile's definition and with its stocks.
pub proof fn promoted_tiles_are_carried(
    e: Env,
    db: Db,
    surface: u8,
    macro_zone: u64,
    q: u8,
    r: u8,
    t: u64,
    view: Tile,
)
    requires
        t < packed::TIME_RADIX,
        history::distinct_versions(db.cards),
        outcomes::unused(db.cards, cards::next_id(db)),
        tiles::tile_view(db, surface, macro_zone, q, r, t) == Some(view),
        view.1 <= 3,
        view.2 <= 3,
    ensures
        ({
            let p = tiles::promotion(e, db, surface, macro_zone, q, r, t);
            &&& history::distinct_versions(p.0.cards)
            &&& p.1 matches Ok(c) && history::prior_at(p.0.cards, c.card_id, t) == Some(c)
                && bits::lies_on(c.macro_zone, macro_zone, surface) && c.packed_definition == view.0
                && stock_in(c.stock, 0) == view.1 && stock_in(c.stock, 1) == view.2 && (
            cards::placement(c) matches Micro::Loose { local_q, local_r, .. } && local_q == q
                && local_r == r)
        }),
{
    let location = packed::on_surface(macro_zone, surface);
    bits::lemma_lies_on(macro_zone, surface);
    lemma_tile_card_in_force(db.cards, db.cards, location, q, r, t);
    if tiles::tile_card(db, surface, macro_zone, q, r, t) is None {
        let z = zones::latest_on(db.zones, location)->0;
        let taken = cards::id_taken(db);
        let c = tiles::promoted(db, location, q, r, z.owner_id, view);
        history::prior_at_is_greatest(db.cards, c.card_id, t);
        bits::lemma_nothing_shared(e.state.dead);
        laws::placed_card_reads_back(
            Micro::Loose { local_q: q, local_r: r, x: 0, y: 0 },
            Card {
                valid_at: 0,
                card_id: c.card_id,
                macro_zone: location,
                micro_location: 0,
                owner_id: z.owner_id,
                packed_definition: view.0,
                flags: 0,
                flags_bk: 0,
                stock: c.stock,
            },
        );
        laws::write_reads_back(e, taken, c, t);
        laws::writes_keep_versions_distinct(e, taken, c, t, 0);
        assert(history::prior_at(taken.cards, c.card_id, t) is None);
        assert(cards::after_write(e, taken, c, t) == cards::row_written(e, taken, c, t));
    }
}

/// A stock effect on a stock word.
proof fn lemma_stock_effect(word: u64, slot: u8, op: u8, delta: u8)
    requires
        slot < 2,
        op < 3,
    ensures
        stock_ops::stock_after(model::stock_value(word, slot as int), op, delta) matches Some(next)
            && {
            let out = model::with_stock(word, slot as int, next);
            &&& stock_in(out, slot) == stock_becomes(stock_in(word, slot), op, delta)
            &&& slot == 0 ==> stock_in(out, 1) == stock_in(word, 1)
            &&& slot == 1 ==> stock_in(out, 0) == stock_in(word, 0)
        },
{
    let next = stock_ops::stock_after(model::stock_value(word, slot as int), op, delta)->0;
    model::stock_read_over_write(word, slot as int, next, 0);
    model::stock_read_over_write(word, slot as int, next, 1);
}

/// The stock effect of an action on a tile adds up: the stock named, as the tile showed
/// it, goes up, down or to the amount given, from none to three, and the other stock
/// stays.
pub proof fn tile_effects_add_up(
    e: Env,
    db: Db,
    t: u64,
    c: gate_api::Cell,
    slots: Seq<u8>,
    ops: Seq<u8>,
    deltas: Seq<u8>,
    i: int,
    view: Tile,
)
    requires
        t < packed::TIME_RADIX,
        history::distinct_versions(db.cards),
        outcomes::unused(db.cards, cards::next_id(db)),
        tiles::tile_view(db, c.surface, c.macro_zone, c.q, c.r, t) == Some(view),
        view.1 <= 3,
        view.2 <= 3,
        0 <= i < slots.len(),
        slots[i] < 2,
        ops[i] < 3,
    ensures
        ({
            let out = gate_api::tile_stock_step(e, t, c, slots, ops, deltas)(i, db);
            let id = tiles::promotion(e, db, c.surface, c.macro_zone, c.q, c.r, t).1->Ok_0.card_id;
            &&& out.1 is Ok
            &&& history::prior_at(out.0.cards, id, t) matches Some(n) && n.packed_definition
                == view.0 && bits::lies_on(n.macro_zone, c.macro_zone, c.surface) && (stock_in(
                n.stock,
                0,
            ) == if slots[i] == 0 {
                stock_becomes(view.1 as int, ops[i], deltas[i])
            } else {
                view.1 as int
            }) && (stock_in(n.stock, 1) == if slots[i] == 1 {
                stock_becomes(view.2 as int, ops[i], deltas[i])
            } else {
                view.2 as int
            })
        }),
{
    promoted_tiles_are_carried(e, db, c.surface, c.macro_zone, c.q, c.r, t, view);
    let p = tiles::promotion(e, db, c.surface, c.macro_zone, c.q, c.r, t);
    let tile = p.1->Ok_0;
    let next = stock_ops::stock_after(
        model::stock_value(tile.stock, slots[i] as int),
        ops[i],
        deltas[i],
    )->0;
    let n = tiles::restocked(slots[i] as int, next)(tile);
    lemma_stock_effect(tile.stock, slots[i], ops[i], deltas[i]);
    history::prior_at_is_greatest(p.0.cards, tile.card_id, t);
    laws::write_reads_back(e, p.0, n, t);
    assert(cards::after_write(e, p.0, n, t) == cards::row_written(e, p.0, n, t));
}

/// A hold that is taken on a tile counts one more on the tile's card from then on, and
/// is refused only where it is exclusive and the card is claimed already.
pub proof fn tile_holds_count_one(
    e: Env,
    db: Db,
    surface: u8,
    macro_zone: u64,
    q: u8,
    r: u8,
    field: HoldField,
    t: u64,
    at: u64,
    mid: Db,
    c: Card,
)
    requires
        e.wf(),
        t < packed::TIME_RADIX,
        tiles::promotion(e, db, surface, macro_zone, q, r, t) == (
            mid,
            Ok::<Card, TileError>(c),
        ),
        history::distinct_versions(mid.cards),
        history::prior_at(mid.cards, c.card_id, t) == Some(c),
        history::key_free(mid.cards, packed::valid_at_key(t, mid.next_sequence)),
    ensures
        ({
            let out = tiles::hold_acquired(e, db, surface, macro_zone, q, r, field, t);
            let was = laws::count_at(e, mid, c.card_id, field, at);
            let max = e.layout.spec_field(field).max;
            &&& out.1 is Err <==> field == HoldField::SlotClaim && laws::count_at(
                e,
                mid,
                c.card_id,
                field,
                t,
            ) > 0
            &&& out.1 is Ok ==> laws::count_at(e, out.0, c.card_id, field, at) == if at < t {
                was as int
            } else if was < max {
                was + 1
            } else {
                max as int
            }
        }),
{
    laws::holds_count_from_then_on(e, mid, c.card_id, t, field, true, at);
}

/// Giving a hold on a tile back counts one less on the tile's card from then on.
pub proof fn tile_holds_are_given_back(
    e: Env,
    db: Db,
    surface: u8,
    macro_zone: u64,
    q: u8,
    r: u8,
    field: HoldField,
    t: u64,
    at: u64,
    c: Card,
)
    requires
        e.wf(),
        t < packed::TIME_RADIX,
        tiles::tile_card(db, surface, macro_zone, q, r, t) == Some(c),
        history::distinct_versions(db.cards),
        history::key_free(db.cards, packed::valid_at_key(t, db.next_sequence)),
    ensures
        ({
            let d = tiles::hold_released(e, db, surface, macro_zone, q, r, field, t);
            let was = laws::count_at(e, db, c.card_id, field, at);
            laws::count_at(e, d, c.card_id, field, at) == if at < t || was == 0 {
                was as int
            } else {
                was - 1
            }
        }),
{
    lemma_tile_card_in_force(
        db.cards,
        db.cards,
        packed::on_surface(macro_zone, surface),
        q,
        r,
        t,
    );
    laws::holds_count_from_then_on(e, db, c.card_id, t, field, false, at);
}

/// The tile side of an action ends with its last stock effect, at the completion.
pub proof fn tile_actions_end_with_their_last_effect(
    e: Env,
    db: Db,
    now_ms: u64,
    completion_ms: u64,
    c: gate_api::Cell,
    mask: u8,
    slots: Seq<u8>,
    ops: Seq<u8>,
    deltas: Seq<u8>,
    slot: u8,
    op: u8,
    delta: u8,
)
    requires
        ops.len() == slots.len(),
        deltas.len() == slots.len(),
        gate_api::tile_action_applied(e, db, now_ms, completion_ms, c, mask, slots, ops, deltas).1 is Ok,
    ensures
        ({
            let before = gate_api::tile_action_applied(
                e,
                db,
                now_ms,
                completion_ms,
                c,
                mask,
                slots,
                ops,
                deltas,
            );
            gate_api::tile_action_applied(
                e,
                db,
                now_ms,
                completion_ms,
                c,
                mask,
                slots.push(slot),
                ops.push(op),
                deltas.push(delta),
            ) == gate_api::tile_stock_step(
                e,
                completion_ms,
                c,
                seq![slot],
                seq![op],
                seq![delta],
            )(0, before.0)
        }),
{
    let taken = gate_api::run(gate_api::tile_take_step(e, now_ms, c, mask), db, 4);
    let given = gate_api::carried_on(
        taken,
        gate_api::tile_give_step(e, completion_ms, c, mask),
        4,
    );
    lemma_same_effects(e, completion_ms, c, slots, ops, deltas, slot, op, delta, given.0, slots.len());
}

proof fn lemma_same_effects(
    e: Env,
    t: u64,
    c: gate_api::Cell,
    slots: Seq<u8>,
    ops: Seq<u8>,
    deltas: Seq<u8>,
    slot: u8,
    op: u8,
    delta: u8,
    start: Db,
    n: nat,
)
    requires
        ops.len() == slots.len(),
        deltas.len() == slots.len(),
        n <= slots.len(),
    ensures
        gate_api::run(
            gate_api::tile_stock_step(e, t, c, slots.push(slot), ops.push(op), deltas.push(delta)),
            start,
            n,
        ) == gate_api::run(gate_api::tile_stock_step(e, t, c, slots, ops, deltas), start, n),
    decreases n,
{
    if n > 0 {
        lemma_same_effects(
            e,
            t,
            c,
            slots,
            ops,
            deltas,
            slot,
            op,
            delta,
            start,
            (n - 1) as nat,
        );
    }
}

// ---- holds of an action --------------------------------------------
/// The hold mask that asks for one of the four families.
pub open spec fn single_mask(k: u8) -> u8 {
    if k == 0 {
        1
    } else if k == 1 {
        2
    } else if k == 2 {
        4
    } else {
        8
    }
}

/// The families in the order of their bits in a mask.
pub open spec fn family(k: u8) -> HoldField {
    seq![HoldField::Touch, HoldField::SlotClaim, HoldField::SlotBorrow, HoldField::PositionHold][k as int]
}

#[verifier::spinoff_prover]
proof fn lemma_single_mask(e: Env, db: Db, card_id: u32, k: u8, t: u64, up: bool)
    requires
        k < 4,
    ensures
        gate_api::mask_stepped(e, db, card_id, single_mask(k), t, up, 4) == cards::held(
            e,
            db,
            card_id,
            t,
            family(k),
            up,
        ),
{
    let m = single_mask(k);
    assert(forall|j: int| 0 <= j < 4 ==> (#[trigger] gate_api::wants(m, j) <==> j == k));
    let d1 = gate_api::mask_stepped(e, db, card_id, m, t, up, 1);
    let d2 = gate_api::mask_stepped(e, db, card_id, m, t, up, 2);
    let d3 = gate_api::mask_stepped(e, db, card_id, m, t, up, 3);
    let held = cards::held(e, db, card_id, t, family(k), up);
    assert(gate_api::mask_stepped(e, db, card_id, m, t, up, 0) == db);
    assert(d1 == if k == 0 {
        held
    } else {
        db
    });
    assert(d2 == if k <= 1 {
        held
    } else {
        db
    });
    assert(d3 == if k <= 2 {
        held
    } else {
        db
    });
}

/// A bound card is held while the action runs: it counts one more reference of the
/// family asked for from the start until the completion, and none before.
pub proof fn bound_cards_are_held_until_completion(
    e: Env,
    db: Db,
    a: CardAction,
    id: u32,
    k: u8,
    at: u64,
)
    requires
        e.wf(),
        k < 4,
        a.bound_ids@ == seq![id],
        a.bound_masks@ == seq![single_mask(k)],
        a.destroy_ids@.len() == 0,
        only_destroys(a),
        a.now_ms < a.completion_ms < packed::TIME_RADIX,
        at < a.completion_ms,
        gate_api::action_applied(e, db, a).1 is Ok,
        history::distinct_versions(db.cards),
        history::prior_at(db.cards, id, a.now_ms) is Some,
        history::key_free(db.cards, packed::valid_at_key(a.now_ms, db.next_sequence)),
        history::key_free(
            db.cards,
            packed::valid_at_key(
                a.completion_ms,
                cards::held(e, db, id, a.now_ms, family(k), true).next_sequence,
            ),
        ),
        laws::count_at(e, db, id, family(k), at) < e.layout.spec_field(family(k)).max,
    ensures
        laws::count_at(e, gate_api::action_applied(e, db, a).0, id, family(k), at)
            == laws::count_at(e, db, id, family(k), at) + if at >= a.now_ms {
            1int
        } else {
            0int
        },
{
    let taken = cards::held(e, db, id, a.now_ms, family(k), true);
    let back = cards::held(e, taken, id, a.completion_ms, family(k), false);
    lemma_single_mask(e, db, id, k, a.now_ms, true);
    lemma_single_mask(e, taken, id, k, a.completion_ms, false);
    lemma_single_binding(e, db, a, id);
    laws::holds_last_until_completion(e, db, id, family(k), a.now_ms, a.completion_ms, at);
    if let Some(c) = history::prior_at(back.cards, id, a.completion_ms) {
        laws::writes_do_not_reach_back(
            e,
            back,
            gate_api::finalized(e)(c),
            a.completion_ms,
            cards::cascade_depth(back),
            id,
            at,
        );
    }
}

proof fn lemma_single_binding(e: Env, db: Db, a: CardAction, id: u32)
    requires
        a.bound_ids@ == seq![id],
        a.bound_masks@.len() == 1,
        a.destroy_ids@.len() == 0,
        only_destroys(a),
        gate_api::action_applied(e, db, a).1 is Ok,
    ensures
        ({
            let mask = a.bound_masks@[0];
            let taken = gate_api::mask_stepped(e, db, id, mask, a.now_ms, true, 4);
            let back = gate_api::mask_stepped(e, taken, id, mask, a.completion_ms, false, 4);
            gate_api::action_applied(e, db, a).0 == cards::edited(
                e,
                back,
                id,
                a.completion_ms,
                gate_api::finalized(e),
            )
        }),
{
    reveal_with_fuel(gate_api::run, 2);
    assert(a.bound_ids@.len() == 1);
    lemma_checks_change_nothing(e, a.now_ms, a.bound_ids@, a.bound_masks@, db, 1);
}

// ---- recorded operations -------------------------------------------
/// A number cut to the range of a 64-bit one.
pub open spec fn cut(v: int) -> int {
    if v < i64::MIN {
        i64::MIN as int
    } else if v > i64::MAX {
        i64::MAX as int
    } else {
        v
    }
}

/// An operation that is recorded last, and comes last, takes effect from its time on:
/// a reset gives its amount, the others add it or take it away. Before that time, and
/// for every other aspect and card, the value is what it was.
pub proof fn recorded_operations_take_effect(
    db: Db,
    card_id: u32,
    aspect_id: u8,
    t: u64,
    op: AspectOp,
    modifier: i64,
    card: u32,
    aspect: u8,
    at: u64,
)
    requires
        oplog::numbered(db),
        db.next_op_id < u64::MAX,
        forall|i: int| 0 <= i < db.op_log.len() ==> (#[trigger] db.op_log[i]).time_ms <= t,
    ensures
        ({
            let log = oplog::appended(db, card_id, aspect_id, t, op, modifier).op_log;
            let was = oplog::value_at(db.op_log, card, aspect, at);
            oplog::value_at(log, card, aspect, at) == if card == card_id && aspect == aspect_id && at
                >= t {
                match op {
                    AspectOp::Assign => modifier as int,
                    AspectOp::Inc => cut(was + modifier),
                    AspectOp::Dec => cut(was - modifier),
                }
            } else {
                was as int
            }
        }),
{
    let keep = oplog::about(card, aspect);
    let r = OpLog {
        id: db.next_op_id,
        card_id,
        aspect_id,
        time_ms: t,
        op: op.spec_code(),
        modifier,
    };
    replay::filter_of_push(db.op_log, r, keep);
    let mine = db.op_log.filter(keep);
    if keep(r) {
        history::filter_members(db.op_log, keep);
        assert forall|i: int| 0 <= i < mine.len() implies (#[trigger] mine[i]).id < r.id
            && mine[i].time_ms <= t by {
            assert(mine.contains(mine[i]));
            let k = choose|k: int| 0 <= k < db.op_log.len() && db.op_log[k] == mine[i];
            assert(db.op_log[k].id < db.next_op_id);
        }
        replay::insert_at_the_end(mine, r);
        replay::sorting_sorts(mine);
        let line = replay::sorted(mine);
        assert forall|i: int| 0 <= i < line.len() implies (#[trigger] line[i]).time_ms <= t by {
            assert(line.contains(line[i]));
            let k = choose|k: int| 0 <= k < mine.len() && mine[k] == line[i];
            assert(mine[k].time_ms <= t);
        }
        assert(line.push(r).drop_last() =~= line);
        replay::code_round_trip(op);
        let o = Op { time: t, op, modifier };
        lemma_times_carry(line, t);
        lemma_fold_of_push(oplog::ops_in(line), o, at);
    }
}

proof fn lemma_times_carry(rows: Seq<OpLog>, t: u64)
    requires
        forall|i: int| 0 <= i < rows.len() ==> (#[trigger] rows[i]).time_ms <= t,
    ensures
        forall|i: int| 0 <= i < oplog::ops_in(rows).len() ==> (#[trigger] oplog::ops_in(rows)[i]).time
            <= t,
    decreases rows.len(),
{
    if rows.len() > 0 {
        let init = rows.drop_last();
        assert forall|i: int| 0 <= i < init.len() implies (#[trigger] init[i]).time_ms <= t by {
            assert(rows[i] == init[i]);
        }
        lemma_times_carry(init, t);
        assert(rows[rows.len() - 1] == rows.last());
    }
}

proof fn lemma_fold_of_push(ops: Seq<Op>, o: Op, at: u64)
    requires
        forall|i: int| 0 <= i < ops.len() ==> (#[trigger] ops[i]).time <= o.time,
    ensures
        replay::folded(ops.push(o), at) == if o.time <= at {
            replay::stepped(replay::folded(ops, at), o)
        } else {
            replay::folded(ops, at)
        },
{
    let keep = replay::due(at);
    replay::filter_of_push(ops, o, keep);
    if o.time <= at {
        let due = ops.filter(keep);
        history::filter_members(ops, keep);
        let line = replay::sorted(due);
        replay::sorting_sorts(due);
        if line.len() > 0 {
            assert(line.contains(line[line.len() - 1]));
            let k = choose|k: int| 0 <= k < due.len() && due[k] == line.last();
            assert(due.contains(due[k]));
            let j = choose|j: int| 0 <= j < ops.len() && ops[j] == due[k];
            assert(ops[j].time <= o.time);
        }
        assert(due.push(o).drop_last() =~= due);
        assert(replay::sorted(due.push(o)) == line.push(o));
        assert(line.push(o).drop_last() =~= line);
    }
}

/// A card that is brought up to date shows the value of the aspect in the aspect's own
/// bits, cut to what they hold, and its other bits are as they were.
pub proof fn materialized_cards_show_the_value(
    e: Env,
    db: Db,
    card_id: u32,
    a: StockAspect,
    t: u64,
    c: Card,
)
    requires
        a.wf(),
        t < packed::TIME_RADIX,
        history::distinct_versions(db.cards),
        history::key_free(db.cards, packed::valid_at_key(t, db.next_sequence)),
        history::prior_at(db.cards, card_id, t) == Some(c),
    ensures
        ({
            let d = oplog::materialized(e, db, card_id, a, t);
            let v = oplog::value_at(db.op_log, card_id, a.id, t);
            let max = oplog::low_bits(a.width);
            history::prior_at(d.cards, card_id, t) matches Some(n) && (n.stock >> a.shift) & max == (
            if v < 0 {
                0
            } else if v > max {
                max as int
            } else {
                v as int
            }) && n.stock & !(max << a.shift) == c.stock & !(max << a.shift) && n.flags == c.flags
                && n.owner_id == c.owner_id && n.macro_zone == c.macro_zone
        }),
{
    let v = oplog::field_value_at(db.op_log, card_id, a, t);
    let n = oplog::shown(a, v)(c);
    history::prior_at_is_greatest(db.cards, card_id, t);
    laws::write_reads_back(e, db, n, t);
    laws::writes_keep_versions_distinct(e, db, n, t, 0);
    let d = cards::after_write(e, db, n, t);
    assert(d == cards::row_written(e, db, n, t));
    oplog::lemma_widths(a.width);
    oplog::field_read_over_write(c.stock, a, v);
    let row = cards::stamped(e, db, n, t);
    packed::valid_at_round_trip(t, db.next_sequence);
    history::later_edits_are_unseen(
        d.cards,
        card_id,
        t,
        oplog::shown_then(d.op_log, card_id, a),
        card_id,
        t,
    );
}

// ---- demotion ------------------------------------------------------
/// A tile-card at rest leaves its tile behind when it folds into its zone: whoever reads
/// the cell from the folded zone sees the definition and the stocks that the card had.
/// The fold counts from the time of the card's row.
pub proof fn folded_cards_leave_their_tile(
    e: Env,
    db: Db,
    c: Card,
    z: Zone,
    cells: Seq<Demotion>,
    after: Db,
    q: u8,
    r: u8,
)
    requires
        gc::at_rest(e, db, c),
        zones::latest_on(db.zones, c.macro_zone) == Some(z),
        z.packed_definition / 16 == 7,
        c.packed_definition / 4096 == 7,
        c.packed_definition % 4096 != 0,
        (q as int, r as int) == bits::cell_of(c.micro_location),
        ({
            let folded = demotion::with_cells(z, cells.push(gc::fold_of(db, c)));
            zones::latest_on(after.zones, c.macro_zone) matches Some(n) && zones::words(n)
                == zones::words(folded) && n.packed_definition == z.packed_definition
        }),
    ensures
        gc::fold_of(db, c).zone_id == z.zone_id,
        gc::fold_of(db, c).card_id == c.card_id,
        gc::fold_of(db, c).at == history::time(c),
        tiles::zone_tile(after, c.macro_zone, q, r) == Ok::<Tile, TileError>(
            (c.packed_definition, (c.stock % 4) as u8, (c.stock / 4 % 4) as u8),
        ),
{
    let f = gc::fold_of(db, c);
    demotion::folded_tile_reads_back(z, cells.push(f));
    let n = zones::latest_on(after.zones, c.macro_zone)->0;
    let folded = demotion::with_cells(z, cells.push(f));
    assert(zones::tile_of(n, r as int, q as int) == zones::tile_of(folded, r as int, q as int));
}

// ---- placements ----------------------------------------------------
/// A half of a packed offset, read as a signed number and cut to twelve bits.
pub open spec fn offset_in(half: int) -> int {
    let s = if half >= 0x8000 {
        half - 0x1_0000
    } else {
        half
    };
    if s < -2048 {
        -2048
    } else if s > 2047 {
        2047
    } else {
        s
    }
}

/// A wire placement of the first kind names a stack and a direction; one of the second
/// kind a cell of a zone on a surface, with its offsets in the two halves of a word.
pub proof fn placements_read_their_fields(p: place::Placement)
    ensures
        p.kind == 0 ==> place::planned_form(p) == Some(
            place::StackPlacement::Stack { parent_id: p.parent_id, direction: p.direction },
        ),
        p.kind == 1 ==> (place::planned_form(p) matches Some(
            place::StackPlacement::Loose { surface, macro_zone, q, r, x, y },
        ) && surface == p.surface && macro_zone == p.macro_zone && q == p.q && r == p.r && x
            == offset_in(p.xy as int / 0x1_0000) && y == offset_in(p.xy as int % 0x1_0000)),
        p.kind > 1 ==> place::planned_form(p) is None,
{
}

/// The members of a root are the cards in force that are members of a stack with that
/// root, each once.
pub proof fn members_are_those_of_the_root(rows: Seq<Card>, root: u32, t: u64, id: u32)
    ensures
        place::member_ids(rows, rows, root, t).no_duplicates(),
        place::member_ids(rows, rows, root, t).contains(id) <==> (history::prior_at(
            rows,
            id,
            t,
        ) matches Some(c) && c.micro_location == root && c.flags % 16 != 0),
{
    lemma_members(rows, rows, root, t, id);
    history::prior_at_is_greatest(rows, id, t);
    if let Some(c) = history::prior_at(rows, id, t) {
        let k = choose|k: int| 0 <= k < rows.len() && rows[k] == c;
        assert(rows[k].card_id == id);
    }
}

proof fn lemma_members(rows: Seq<Card>, prefix: Seq<Card>, root: u32, t: u64, id: u32)
    ensures
        place::member_ids(rows, prefix, root, t).no_duplicates(),
        place::member_ids(rows, prefix, root, t).contains(id) <==> place::member_at(
            rows,
            id,
            root,
            t,
        ) && exists|k: int|
            0 <= k < prefix.len() && (#[trigger] prefix[k]).card_id == id
                && prefix[k].micro_location == root,
    decreases prefix.len(),
{
    if prefix.len() > 0 {
        let init = prefix.drop_last();
        lemma_members(rows, init, root, t, id);
        lemma_members(rows, init, root, t, prefix.last().card_id);
        let before = place::member_ids(rows, init, root, t);
        let out = place::member_ids(rows, prefix, root, t);
        assert(prefix[prefix.len() - 1] == prefix.last());
        assert(forall|k: int| 0 <= k < init.len() ==> init[k] == prefix[k]);
        assert(forall|k: int| 0 <= k < before.len() ==> out[k] == before[k]);
        if out.contains(id) {
            let k = choose|k: int| 0 <= k < out.len() && out[k] == id;
            if k < before.len() {
                assert(before[k] == id);
                let j = choose|j: int|
                    0 <= j < init.len() && (#[trigger] init[j]).card_id == id
                        && init[j].micro_location == root;
                assert(prefix[j].card_id == id);
            }
        }
        if place::member_at(rows, id, root, t) && exists|k: int|
            0 <= k < prefix.len() && (#[trigger] prefix[k]).card_id == id
                && prefix[k].micro_location == root {
            let k = choose|k: int|
                0 <= k < prefix.len() && (#[trigger] prefix[k]).card_id == id
                    && prefix[k].micro_location == root;
            if k < init.len() {
                assert(init[k].card_id == id);
            }
            if before.contains(id) {
                let j = choose|j: int| 0 <= j < before.len() && before[j] == id;
                assert(out[j] == id);
            } else {
                assert(out[out.len() - 1] == id);
            }
        }
    }
}

/// The last write of a plan is found: the card lies in the zone and at the place that the
/// plan gives it, with its state and holds as they were.
pub proof fn planned_places_are_taken(
    e: Env,
    db: Db,
    t: u64,
    writes: Seq<place::PlaceWrite>,
    c: Card,
)
    requires
        t < packed::TIME_RADIX,
        writes.len() > 0,
        model::fits(writes.last().micro),
        writes.last().micro matches Micro::Stacked { branch, .. } ==> branch
            != packed::STACK_STATE_DEFERRED,
        ({
            let w = writes.last();
            let before = place::plan_applied(e, db, t, writes.drop_last());
            &&& history::distinct_versions(before.cards)
            &&& history::prior_at(before.cards, w.card_id, t) == Some(c)
            &&& keys::write_takes_free_keys(
                e,
                before,
                place::put(w.macro_zone, w.micro)(c),
                t,
                cards::cascade_depth(before),
            )
        }),
    ensures
        ({
            let w = writes.last();
            let d = place::plan_applied(e, db, t, writes);
            history::prior_at(d.cards, w.card_id, t) matches Some(n) && n.macro_zone == w.macro_zone
                && cards::placement(n) == w.micro && same_data(n, c) && n.flags / 256 == c.flags
                / 256
        }),
{
    let w = writes.last();
    let before = place::plan_applied(e, db, t, writes.drop_last());
    let n = place::put(w.macro_zone, w.micro)(c);
    history::prior_at_is_greatest(before.cards, w.card_id, t);
    laws::placed_card_reads_back(w.micro, Card { macro_zone: w.macro_zone, ..c });
    let row = cards::stamped(e, before, n, t);
    assert(cards::placement(row) == w.micro);
    outcomes::writes_are_found(e, before, n, t);
}

// ---- what is granted -----------------------------------------------
/// A card is free for an action exactly where nobody claims or borrows what the action
/// wants for itself, and nobody claims what it borrows.
pub proof fn free_cards_are_granted(e: Env, db: Db, card_id: u32, mask: u8, t: u64, c: Card)
    requires
        history::prior_at(db.cards, card_id, t) == Some(c),
    ensures
        gate_api::conflict(e, db, card_id, mask, t) is None <==> {
            let claimed = model::hold_value(e.layout, c.flags, HoldField::SlotClaim) > 0;
            let borrowed = model::hold_value(e.layout, c.flags, HoldField::SlotBorrow) > 0;
            (asks(mask, 1) ==> !claimed && !borrowed) && (asks(mask, 2) ==> !claimed)
        },
{
}

/// The hold families in the order of their wire numbers.
pub open spec fn wire_family(kind: u8) -> HoldField {
    seq![
        HoldField::Touch,
        HoldField::SlotClaim,
        HoldField::SlotBorrow,
        HoldField::PositionHold,
        HoldField::DropHold,
        HoldField::Server,
    ][kind as int]
}

/// A reference that is taken or given back over the wire counts one more or one less of
/// its family from then on, within the bounds of the family, and not before.
pub proof fn wire_holds_count_one(
    e: Env,
    db: Db,
    card_id: u32,
    t: u64,
    kind: u8,
    up: bool,
    at: u64,
)
    requires
        e.wf(),
        kind < 6,
        t < packed::TIME_RADIX,
        history::distinct_versions(db.cards),
        history::key_free(db.cards, packed::valid_at_key(t, db.next_sequence)),
        history::prior_at(db.cards, card_id, t) is Some,
    ensures
        ({
            let out = gate_api::dispatched(e, db, card_id, t, kind, up);
            let was = laws::count_at(e, db, card_id, wire_family(kind), at);
            let max = e.layout.spec_field(wire_family(kind)).max;
            &&& out.1 is Ok
            &&& laws::count_at(e, out.0, card_id, wire_family(kind), at) == if at < t {
                was as int
            } else if up {
                if was < max {
                    was + 1
                } else {
                    max as int
                }
            } else if was > 0 {
                was - 1
            } else {
                0
            }
        }),
{
    laws::holds_count_from_then_on(e, db, card_id, t, wire_family(kind), up, at);
}

/// A bulk move with lists of one length, at a time that is accepted, moves its cards at
/// that time.
pub proof fn bulk_moves_take_place_at_the_accepted_time(
    e: Env,
    db: Db,
    client_time_ms: u64,
    ids: Seq<u32>,
    zones: Seq<u64>,
    micros: Seq<u32>,
    stacks: Seq<u8>,
    t: u64,
)
    requires
        zones.len() == ids.len(),
        micros.len() == ids.len(),
        stacks.len() == ids.len(),
        time::resolved(e.now_ms, client_time_ms, cards::TIME_DRIFT_BUFFER_MS) == Ok::<
            u64,
            TimeDrift,
        >(t),
    ensures
        place::cards_moved(e, db, client_time_ms, ids, zones, micros, stacks) == place::moved_first(
            e,
            db,
            t,
            ids,
            zones,
            micros,
            stacks,
            ids.len(),
        ),
        t <= e.now_ms,
{
}

/// A step by one is recorded as one more or one less.
pub proof fn steps_by_one_are_recorded(
    db: Db,
    card_id: u32,
    aspect_id: u8,
    t: u64,
    increment: bool,
    at: u64,
)
    requires
        oplog::numbered(db),
        db.next_op_id < u64::MAX,
        at >= t,
        forall|i: int| 0 <= i < db.op_log.len() ==> (#[trigger] db.op_log[i]).time_ms <= t,
    ensures
        ({
            let log = oplog::appended(
                db,
                card_id,
                aspect_id,
                t,
                oplog::step_op(increment),
                1,
            ).op_log;
            let was = oplog::value_at(db.op_log, card_id, aspect_id, at);
            oplog::value_at(log, card_id, aspect_id, at) == if increment {
                cut(was + 1)
            } else {
                cut(was - 1)
            }
        }),
{
    recorded_operations_take_effect(
        db,
        card_id,
        aspect_id,
        t,
        oplog::step_op(increment),
        1,
        card_id,
        aspect_id,
        at,
    );
}

// ---- sweeps --------------------------------------------------------
/// A sweep leaves the newest row of each soul and of each shard reference, and the
/// actions in flight that are not long past; it changes none of them.
pub proof fn sweeps_leave_the_newest(
    e: Env,
    db: Db,
    s: Soul,
    r: CardShard,
    p: PendingAction,
)
    ensures
        ({
            let d = gc::swept(e, db);
            &&& d.souls.contains(s) <==> db.souls.contains(s) && forall|i: int|
                0 <= i < db.souls.len() && (#[trigger] db.souls[i]).card_id == s.card_id
                    ==> db.souls[i].valid_at <= s.valid_at
            &&& d.card_shards.contains(r) <==> db.card_shards.contains(r) && history::is_newest(
                db.card_shards,
                r,
            )
            &&& d.pending_actions.contains(p) <==> db.pending_actions.contains(p) && e.now_ms
                - p.completion_ms <= 300_000
        }),
{
    let d = gc::cards_swept(e, gc::tile_cards_demoted(e, db), e.now_ms);
    assert(d.souls == db.souls);
    assert(d.card_shards == db.card_shards);
    assert(d.pending_actions == db.pending_actions);
    history::sweep_keeps_exactly_newest(db.souls, s);
    history::max_key_is_greatest(db.souls, s.card_id);
    history::sweep_keeps_exactly_newest(db.card_shards, r);
    let keep = pending_actions::not_stale(e.now_ms);
    history::filter_members(db.pending_actions, keep);
    let out = db.pending_actions.filter(keep);
    if out.contains(p) {
        let k = choose|k: int| 0 <= k < out.len() && out[k] == p;
        assert(keep(out[k]));
    }
    if db.pending_actions.contains(p) && e.now_ms - p.completion_ms <= 300_000 {
        let k = choose|k: int| 0 <= k < db.pending_actions.len() && db.pending_actions[k] == p;
        assert(keep(db.pending_actions[k]));
    }
    if db.souls.contains(s) {
        let k = choose|k: int| 0 <= k < db.souls.len() && db.souls[k] == s;
        assert(db.souls[k].card_id == s.card_id);
    }
}

/// Tiles have four holds, selected by the first four numbers.
pub proof fn tile_holds_have_their_selectors(kind: u8)
    ensures
        gate_api::tile_field_of(kind) == match kind {
            0 => Some(HoldField::Touch),
            1 => Some(HoldField::SlotClaim),
            2 => Some(HoldField::SlotBorrow),
            3 => Some(HoldField::PositionHold),
            _ => None,
        },
{
}

/// A refused placement changes nothing, and an accepted one writes what was planned.
pub proof fn placements_follow_the_plan<R>(
    e: Env,
    db: Db,
    now: u64,
    answer: Result<Vec<place::PlaceWrite>, R>,
)
    ensures
        match answer {
            Err(_) => place::placed_by(e, db, now, answer).0 == db && place::placed_by(
                e,
                db,
                now,
                answer,
            ).1 is Err,
            Ok(writes) => place::placed_by(e, db, now, answer).1 is Ok && place::placed_by(
                e,
                db,
                now,
                answer,
            ).0 == place::plan_applied(e, db, now, writes@),
        },
{
}

} // verus!
