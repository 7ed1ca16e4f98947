//! What shard operations come to: the rows that a reader finds after them.
use vstd::prelude::*;

use crate::cards::outcomes;
use crate::history;
use crate::packed;
use crate::shard::cards;
use crate::shard::cards::Card;
use crate::shard::gate_api;
use crate::shard::keys;
use crate::shard::laws;
use crate::shard::model;
use crate::shard::model::HoldField;
use crate::shard::model::Micro;
use crate::shard::movement;
use crate::shard::movement::TilePoint;
use crate::shard::tables::Db;
use crate::shard::tables::Env;
use crate::time;
use crate::time::TimeDrift;

verus! {

/// The card in force at `t` waits on no host.
pub open spec fn stands_alone(rows: Seq<Card>, id: u32, t: u64) -> bool {
    history::prior_at(rows, id, t) matches Some(c) ==> !(cards::is_member(c) && cards::branch_of(c) == packed::STACK_STATE_DEFERRED)
}

proof fn lemma_no_follower(
    rows: Seq<Card>,
    prefix: Seq<Card>,
    host: u32,
    t: u64,
    id: u32,
)
    requires
        stands_alone(rows, id, t),
    ensures
        !cards::follower_ids(rows, prefix, host, t).contains(id),
    decreases prefix.len(),
{
    if prefix.len() > 0 {
        let before = cards::follower_ids(rows, prefix.drop_last(), host, t);
        lemma_no_follower(rows, prefix.drop_last(), host, t, id);
        let out = cards::follower_ids(rows, prefix, host, t);
        if out.contains(id) {
            let k = choose|k: int| 0 <= k < out.len() && out[k] == id;
            if k < before.len() {
                assert(before[k] == id);
            }
        }
    }
}

/// Bringing followers in step leaves a card alone that waits on no host.
proof fn lemma_followers_spare(
    e: Env,
    db: Db,
    ids: Seq<u32>,
    host_died: bool,
    macro_zone: u64,
    t: u64,
    depth: nat,
    id: u32,
)
    requires
        t < packed::TIME_RADIX,
        history::distinct_versions(db.cards),
        keys::followers_take_free_keys(e, db, ids, host_died, macro_zone, t, depth),
        stands_alone(db.cards, id, t),
        !ids.contains(id),
    ensures
        ({
            let d = cards::followers_written(e, db, ids, host_died, macro_zone, t, depth);
            &&& history::distinct_versions(d.cards)
            &&& history::prior_at(d.cards, id, t) == history::prior_at(db.cards, id, t)
        }),
    decreases depth, ids.len() + 1,
{
    if ids.len() > 0 {
        let init = ids.drop_last();
        assert forall|k: int| 0 <= k < init.len() implies init[k] != id by {
            assert(ids[k] == init[k]);
        }
        lemma_followers_spare(e, db, init, host_died, macro_zone, t, depth, id);
        let d = cards::followers_written(e, db, init, host_died, macro_zone, t, depth);
        if let Some(c) = history::prior_at(d.cards, ids.last(), t) {
            history::prior_at_is_greatest(d.cards, ids.last(), t);
            assert(ids[ids.len() - 1] == ids.last());
            lemma_others_spared(
                e,
                d,
                cards::follower_edit(host_died, macro_zone, c),
                t,
                depth,
                id,
            );
        }
    }
}

proof fn lemma_others_spared(e: Env, db: Db, card: Card, t: u64, depth: nat, id: u32)
    requires
        t < packed::TIME_RADIX,
        history::distinct_versions(db.cards),
        keys::write_takes_free_keys(e, db, card, t, depth),
        stands_alone(db.cards, id, t),
        id != card.card_id,
    ensures
        ({
            let d = cards::written(e, db, card, t, depth);
            &&& history::distinct_versions(d.cards)
            &&& history::prior_at(d.cards, id, t) == history::prior_at(db.cards, id, t)
        }),
    decreases depth, 0nat,
{
    laws::write_is_isolated(e, db, card, t, id, t);
    laws::writes_keep_versions_distinct(e, db, card, t, 0);
    let d = cards::row_written(e, db, card, t);
    let prev = history::prior_at(db.cards, card.card_id, t);
    let moved = match prev {
        Some(p) => p.macro_zone != card.macro_zone,
        None => false,
    };
    let died = cards::is_dead(e, card) && match prev {
        Some(p) => !cards::is_dead(e, p),
        None => true,
    };
    if depth > 0 && (moved || died) {
        lemma_no_follower(d.cards, d.cards, card.card_id, t, id);
        lemma_followers_spare(
            e,
            d,
            cards::follower_ids(d.cards, d.cards, card.card_id, t),
            died,
            card.macro_zone,
            t,
            (depth - 1) as nat,
            id,
        );
    }
}

/// A write under free keys, with every follower it moves, leaves every other card
/// alone that waits on no host.
pub proof fn writes_spare_cards_that_stand_alone(e: Env, db: Db, card: Card, t: u64, id: u32)
    requires
        t < packed::TIME_RADIX,
        history::distinct_versions(db.cards),
        keys::write_takes_free_keys(e, db, card, t, cards::cascade_depth(db)),
        stands_alone(db.cards, id, t),
        id != card.card_id,
    ensures
        history::prior_at(cards::after_write(e, db, card, t).cards, id, t) == history::prior_at(
            db.cards,
            id,
            t,
        ),
        history::distinct_versions(cards::after_write(e, db, card, t).cards),
{
    lemma_others_spared(e, db, card, t, cards::cascade_depth(db), id);
}

/// A card that waits on no host is found as it was written, also where it takes its
/// followers along.
pub proof fn writes_are_found(e: Env, db: Db, card: Card, t: u64)
    requires
        t < packed::TIME_RADIX,
        history::distinct_versions(db.cards),
        keys::write_takes_free_keys(e, db, card, t, cards::cascade_depth(db)),
        !(cards::is_member(cards::stamped(e, db, card, t)) && cards::branch_of(
            cards::stamped(e, db, card, t),
        ) == packed::STACK_STATE_DEFERRED),
    ensures
        history::distinct_versions(cards::after_write(e, db, card, t).cards),
        history::prior_at(cards::after_write(e, db, card, t).cards, card.card_id, t) == Some(
            cards::stamped(e, db, card, t),
        ),
{
    laws::write_reads_back(e, db, card, t);
    laws::writes_keep_versions_distinct(e, db, card, t, 0);
    let d = cards::row_written(e, db, card, t);
    let prev = history::prior_at(db.cards, card.card_id, t);
    let depth = cards::cascade_depth(db);
    let moved = match prev {
        Some(p) => p.macro_zone != card.macro_zone,
        None => false,
    };
    let died = cards::is_dead(e, card) && match prev {
        Some(p) => !cards::is_dead(e, p),
        None => true,
    };
    if moved || died {
        lemma_no_follower(d.cards, d.cards, card.card_id, t, card.card_id);
        lemma_followers_spare(
            e,
            d,
            cards::follower_ids(d.cards, d.cards, card.card_id, t),
            died,
            card.macro_zone,
            t,
            (depth - 1) as nat,
            card.card_id,
        );
    }
}

// ---- movement ------------------------------------------------------
/// A loose card on cell `(lq, lr)` of the world zone `(zq, zr)` stands on the world hex
/// `(7 zq + lq, 7 zr + lr)`, whoever owns the zone and wherever on the cell it lies. A
/// card of another surface, or in a stack, stands on none.
pub proof fn zones_tile_the_world(
    o: u32,
    zq: i32,
    zr: i32,
    lq: u8,
    lr: u8,
    x: i16,
    y: i16,
    flags: u32,
    surface: u8,
)
    requires
        -2048 <= zq < 2048,
        -2048 <= zr < 2048,
        lq < 8,
        lr < 8,
        -2048 <= x < 2048,
        -2048 <= y < 2048,
    ensures
        ({
            let zone = (o * 0x1_0000_0000 + surface * 0x100_0000 + (zq as int % 4096) * 4096 + zr as int
                % 4096) as u64;
            let cell = (lq * 0x2000_0000 + lr * 0x400_0000 + (x as int % 4096) * 0x4000 + (y as int
                % 4096) * 4) as u32;
            movement::world_hex(zone, cell, flags) == if surface == 64 && flags % 16 == 0 {
                Some(((zq * 7 + lq) as i32, (zr * 7 + lr) as i32))
            } else {
                None
            }
        }),
{
    packed::macro_zone_round_trip(o, surface, zq, zr);
    packed::micro_loose_round_trip(lq, lr, x, y);
}

/// The last cell of a zone is next to the first cell of the next zone, on each axis.
pub proof fn zones_meet(zq: i32, zr: i32, l: u8)
    requires
        -2048 <= zq < 2047,
        -2048 <= zr < 2047,
        l < 7,
    ensures
        ({
            let hex = |q: int, r: int, a: int, b: int|
                movement::world_hex(
                    (64 * 0x100_0000 + (q % 4096) * 4096 + r % 4096) as u64,
                    (a * 0x2000_0000 + b * 0x400_0000) as u32,
                    0,
                )->0;
            &&& movement::adjacent(
                hex(zq as int, zr as int, 6, l as int),
                hex(zq + 1, zr as int, 0, l as int),
            )
            &&& movement::adjacent(
                hex(zq as int, zr as int, l as int, 6),
                hex(zq as int, zr + 1, l as int, 0),
            )
        }),
{
    zones_tile_the_world(0, zq, zr, 6, l, 0, 0, 0, 64);
    zones_tile_the_world(0, (zq + 1) as i32, zr, 0, l, 0, 0, 0, 64);
    zones_tile_the_world(0, zq, zr, l, 6, 0, 0, 0, 64);
    zones_tile_the_world(0, zq, (zr + 1) as i32, l, 0, 0, 0, 0, 64);
}

/// A step that is accepted takes the caller's free soul from the hex where it stands at
/// the departure to a hex next to it, and the soul is found there at the arrival, which
/// comes after the departure and within a minute of it.
pub proof fn accepted_steps_arrive_next_door(
    e: Env,
    db: Db,
    client_time_ms: u64,
    caller: u32,
    soul_id: u32,
    soul_def: u16,
    from: (i32, i32),
    dest: TilePoint,
    depart_ms: u64,
    arrival_ms: u64,
)
    requires
        arrival_ms < packed::TIME_RADIX,
        history::distinct_versions(db.cards),
        movement::soul_moved(
            e,
            db,
            client_time_ms,
            caller,
            soul_id,
            soul_def,
            from,
            dest,
            depart_ms,
            arrival_ms,
        ).1 is Ok,
        history::prior_at(db.cards, soul_id, arrival_ms) matches Some(c) && !(cards::is_member(c)
            && cards::branch_of(c) == packed::STACK_STATE_DEFERRED)
            && keys::write_takes_free_keys(
            e,
            db,
            movement::arrived(dest)(c),
            arrival_ms,
            cards::cascade_depth(db),
        ),
    ensures
        ({
            let d = movement::soul_moved(
                e,
                db,
                client_time_ms,
                caller,
                soul_id,
                soul_def,
                from,
                dest,
                depart_ms,
                arrival_ms,
            ).0;
            let left = history::prior_at(db.cards, soul_id, depart_ms);
            let next = movement::world_hex(
                (dest.macro_zone / 0x1_0000_0000 * 0x1_0000_0000 + dest.surface * 0x100_0000
                    + dest.macro_zone % 0x100_0000) as u64,
                dest.micro_location,
                0,
            );
            &&& left matches Some(c) && movement::world_hex(
                c.macro_zone,
                c.micro_location,
                c.flags,
            ) == Some(from)
            &&& next matches Some(n) && -1 <= n.0 - from.0 <= 1 && -1 <= n.1 - from.1 <= 1 && -1
                <= (n.0 + n.1) - (from.0 + from.1) <= 1 && n != from
            &&& depart_ms < arrival_ms <= depart_ms + 60_000
            &&& cards::player_of(e, db, soul_id) == Some(caller)
            &&& history::prior_at(d.cards, soul_id, arrival_ms) matches Some(c) && c.card_id
                == soul_id && c.micro_location == dest.micro_location && c.macro_zone / 0x100_0000
                % 0x100 == dest.surface && c.macro_zone / 0x1_0000_0000 == dest.macro_zone
                / 0x1_0000_0000 && c.macro_zone % 0x100_0000 == dest.macro_zone % 0x100_0000
                && c.packed_definition == history::prior_at(
                db.cards,
                soul_id,
                arrival_ms,
            )->0.packed_definition && c.flags == history::prior_at(
                db.cards,
                soul_id,
                arrival_ms,
            )->0.flags
        }),
{
    history::prior_at_is_greatest(db.cards, soul_id, arrival_ms);
    let c = history::prior_at(db.cards, soul_id, arrival_ms)->0;
    let n = movement::arrived(dest)(c);
    writes_are_found(e, db, n, arrival_ms);
    lemma_resurfaced(dest.macro_zone, dest.surface);
}

/// A location put on another surface keeps its owner band and its coordinates.
proof fn lemma_resurfaced(m: u64, s: u8)
    ensures
        ({
            let k = packed::on_surface(m, s);
            &&& k == m / 0x1_0000_0000 * 0x1_0000_0000 + s * 0x100_0000 + m % 0x100_0000
            &&& k / 0x100_0000 % 0x100 == s
            &&& k / 0x1_0000_0000 == m / 0x1_0000_0000
            &&& k % 0x100_0000 == m % 0x100_0000
        }),
{
    let hi = m as int / 0x1_0000_0000;
    let lo = m as int % 0x100_0000;
    let k = hi * 0x1_0000_0000 + s * 0x100_0000 + lo;
    assert(0 <= k <= u64::MAX);
    assert(k / 0x1_0000_0000 == hi);
    assert(k / 0x100_0000 == hi * 256 + s);
    assert(k % 0x100_0000 == lo);
}

// ---- whole actions -------------------------------------------------
/// The row is what an action asked for as its creation `i`: of that definition, that
/// owner's and with that stock, loose on the first cell of that zone and surface.
pub open spec fn is_creation(row: Card, c: gate_api::Creations, i: int) -> bool {
    &&& row.packed_definition == c.defs@[i]
    &&& row.owner_id == c.owners@[i]
    &&& row.macro_zone / 0x100_0000 % 0x100 == c.surfaces@[i]
    &&& row.macro_zone / 0x1_0000_0000 == c.macro_zones@[i] / 0x1_0000_0000
    &&& row.macro_zone % 0x100_0000 == c.macro_zones@[i] % 0x100_0000
    &&& row.micro_location == 0
    &&& row.flags == 0
    &&& row.stock == if i < c.stocks@.len() {
        c.stocks@[i] as u64
    } else {
        0
    }
}

/// Rows of a card that differ from `row` are not in the table.
pub open spec fn only_row(rows: Seq<Card>, row: Card) -> bool {
    forall|k: int| 0 <= k < rows.len() && (#[trigger] rows[k]).card_id == row.card_id ==> rows[k]
        == row
}

/// No row of a card is in the table.
pub open spec fn unused(rows: Seq<Card>, id: u32) -> bool {
    forall|k: int| 0 <= k < rows.len() ==> (#[trigger] rows[k]).card_id != id
}

/// Each card that an action creates is found, right after its creation, as the action
/// asked for it.
pub proof fn creations_are_as_asked(e: Env, db: Db, t: u64, c: gate_api::Creations, i: int)
    requires
        t < packed::TIME_RADIX,
        c.wf(),
        0 <= i < c.defs@.len(),
        history::distinct_versions(db.cards),
        unused(db.cards, cards::next_id(db)),
    ensures
        ({
            let d = gate_api::create_step(e, t, c)(i, db).0;
            let id = cards::next_id(db);
            &&& history::prior_at(d.cards, id, t) matches Some(row) && is_creation(row, c, i)
                && history::time(row) == t && row.card_id == id && only_row(d.cards, row)
            &&& history::distinct_versions(d.cards)
        }),
{
    let id = cards::next_id(db);
    let taken = cards::id_taken(db);
    let m = Micro::Loose { local_q: 0, local_r: 0, x: 0, y: 0 };
    let card = cards::fresh_card(
        id,
        packed::on_surface(c.macro_zones@[i], c.surfaces@[i]),
        m,
        c.owners@[i],
        c.defs@[i],
        0,
        if i < c.stocks@.len() {
            c.stocks@[i] as u64
        } else {
            0
        },
    );
    history::prior_at_is_greatest(db.cards, id, t);
    outcomes::lemma_nothing_shared(e.state.dead);
    lemma_resurfaced(c.macro_zones@[i], c.surfaces@[i]);
    packed::valid_at_round_trip(t, db.next_sequence);
    laws::write_reads_back(e, taken, card, t);
    laws::writes_keep_versions_distinct(e, taken, card, t, 0);
    let d = gate_api::create_step(e, t, c)(i, db).0;
    assert(history::prior_at(taken.cards, id, t) is None);
    assert(d == cards::row_written(e, taken, card, t));
    let row = cards::stamped(e, taken, card, t);
    assert(d.cards == history::stored(db.cards, row, t));
    history::stored_members(db.cards, row, t);
    assert forall|k: int| 0 <= k < d.cards.len() && (#[trigger] d.cards[k]).card_id == id implies d.cards[k]
        == row by {
        assert(d.cards.contains(d.cards[k]));
    }
}

proof fn lemma_row_keeps_only(e: Env, db: Db, card: Card, t: u64, row: Card)
    requires
        only_row(db.cards, row),
        card.card_id != row.card_id,
    ensures
        only_row(cards::row_written(e, db, card, t).cards, row),
{
    let prev = history::prior_at(db.cards, card.card_id, t);
    let new = cards::stamped(e, db, card, t);
    let rows = history::stored(db.cards, new, t);
    history::stored_members(db.cards, new, t);
    assert forall|k: int| 0 <= k < rows.len() && (#[trigger] rows[k]).card_id == row.card_id implies rows[k]
        == row by {
        assert(rows.contains(rows[k]));
        let j = choose|j: int| 0 <= j < db.cards.len() && db.cards[j] == rows[k];
        assert(db.cards[j].card_id == row.card_id);
    }
    if let Some(p) = prev {
        let set_bits = cards::set_by(e, new.flags, p.flags);
        let clear_bits = cards::set_by(e, p.flags, new.flags);
        laws::carrying_is_confined(
            rows,
            card.card_id,
            t,
            set_bits,
            clear_bits,
            e.bk.data_preserve,
        );
        let out = cards::carried(
            rows,
            card.card_id,
            t,
            set_bits,
            clear_bits,
            e.bk.data_preserve,
        );
        assert forall|k: int| 0 <= k < out.len() && (#[trigger] out[k]).card_id == row.card_id implies out[k]
            == row by {
            assert(laws::same_but_flags(out[k], rows[k]));
            assert(rows[k].card_id == row.card_id);
        }
    }
}

/// Writing another card, with every follower it moves, keeps the row of a card that
/// waits on no host as its only one, and takes no id.
proof fn lemma_write_keeps_only(e: Env, db: Db, card: Card, t: u64, depth: nat, row: Card)
    requires
        only_row(db.cards, row),
        card.card_id != row.card_id,
        !(cards::is_member(row) && cards::branch_of(row) == packed::STACK_STATE_DEFERRED),
    ensures
        only_row(cards::written(e, db, card, t, depth).cards, row),
        cards::written(e, db, card, t, depth).card_id_counter == db.card_id_counter,
        cards::written(e, db, card, t, depth).identity == db.identity,
    decreases depth, 0nat,
{
    lemma_row_keeps_only(e, db, card, t, row);
    let d = cards::row_written(e, db, card, t);
    let prev = history::prior_at(db.cards, card.card_id, t);
    let moved = match prev {
        Some(p) => p.macro_zone != card.macro_zone,
        None => false,
    };
    let died = cards::is_dead(e, card) && match prev {
        Some(p) => !cards::is_dead(e, p),
        None => true,
    };
    if depth > 0 && (moved || died) {
        lemma_stands_alone(d.cards, row, t);
        lemma_no_follower(d.cards, d.cards, card.card_id, t, row.card_id);
        lemma_followers_keep_only(
            e,
            d,
            cards::follower_ids(d.cards, d.cards, card.card_id, t),
            died,
            card.macro_zone,
            t,
            (depth - 1) as nat,
            row,
        );
    }
}

proof fn lemma_stands_alone(rows: Seq<Card>, row: Card, t: u64)
    requires
        only_row(rows, row),
        !(cards::is_member(row) && cards::branch_of(row) == packed::STACK_STATE_DEFERRED),
    ensures
        stands_alone(rows, row.card_id, t),
{
    history::prior_at_is_greatest(rows, row.card_id, t);
    if let Some(c) = history::prior_at(rows, row.card_id, t) {
        let k = choose|k: int| 0 <= k < rows.len() && rows[k] == c;
        assert(rows[k].card_id == row.card_id);
    }
}

proof fn lemma_followers_keep_only(
    e: Env,
    db: Db,
    ids: Seq<u32>,
    host_died: bool,
    macro_zone: u64,
    t: u64,
    depth: nat,
    row: Card,
)
    requires
        only_row(db.cards, row),
        !ids.contains(row.card_id),
        !(cards::is_member(row) && cards::branch_of(row) == packed::STACK_STATE_DEFERRED),
    ensures
        ({
            let d = cards::followers_written(e, db, ids, host_died, macro_zone, t, depth);
            &&& only_row(d.cards, row)
            &&& d.card_id_counter == db.card_id_counter
            &&& d.identity == db.identity
        }),
    decreases depth, ids.len() + 1,
{
    if ids.len() > 0 {
        let init = ids.drop_last();
        assert forall|k: int| 0 <= k < init.len() implies init[k] != row.card_id by {
            assert(ids[k] == init[k]);
        }
        lemma_followers_keep_only(e, db, init, host_died, macro_zone, t, depth, row);
        let d = cards::followers_written(e, db, init, host_died, macro_zone, t, depth);
        if let Some(c) = history::prior_at(d.cards, ids.last(), t) {
            history::prior_at_is_greatest(d.cards, ids.last(), t);
            assert(ids[ids.len() - 1] == ids.last());
            lemma_write_keeps_only(
                e,
                d,
                cards::follower_edit(host_died, macro_zone, c),
                t,
                depth,
                row,
            );
        }
    }
}

/// The state of an action when its creations begin: its cards are checked, bound and
/// destroyed.
pub open spec fn before_creations(e: Env, db: Db, a: gate_api::CardAction) -> Db {
    let t = a.completion_ms;
    gate_api::carried_on(
        gate_api::carried_on(
            gate_api::run(
                gate_api::check_step(e, a.now_ms, a.bound_ids@, a.bound_masks@),
                db,
                a.bound_ids@.len(),
            ),
            gate_api::bind_step(e, a.now_ms, t, a.bound_ids@, a.bound_masks@),
            a.bound_ids@.len(),
        ),
        gate_api::destroy_step(e, t, a.destroy_ids@),
        a.destroy_ids@.len(),
    ).0
}

/// The state of an action before its creation `i`.
pub open spec fn before_creation(e: Env, db: Db, a: gate_api::CardAction, i: nat) -> Db {
    gate_api::run(
        gate_api::create_step(e, a.completion_ms, a.creations),
        before_creations(e, db, a),
        i,
    ).0
}

proof fn lemma_edit_keeps_only(
    e: Env,
    db: Db,
    id: u32,
    t: u64,
    f: spec_fn(Card) -> Card,
    row: Card,
)
    requires
        only_row(db.cards, row),
        id != row.card_id,
        forall|c: Card| (#[trigger] f(c)).card_id == c.card_id,
        !(cards::is_member(row) && cards::branch_of(row) == packed::STACK_STATE_DEFERRED),
    ensures
        only_row(cards::edited(e, db, id, t, f).cards, row),
{
    if let Some(c) = history::prior_at(db.cards, id, t) {
        history::prior_at_is_greatest(db.cards, id, t);
        lemma_write_keeps_only(e, db, f(c), t, cards::cascade_depth(db), row);
    }
}

proof fn lemma_later_creations(
    e: Env,
    db: Db,
    t: u64,
    c: gate_api::Creations,
    from: nat,
    n: nat,
    row: Card,
)
    requires
        from <= n,
        n <= c.defs@.len(),
        only_row(gate_api::run(gate_api::create_step(e, t, c), db, from).0.cards, row),
        row.flags % 16 == 0,
        ({
            let d = gate_api::run(gate_api::create_step(e, t, c), db, from).0;
            let local = cards::next_local(d);
            let who = cards::identity_of(d);
            &&& row.card_id % 0x10_0000 < local
            &&& local + (n - from) <= packed::CARD_LOCAL_MASK
            &&& d.card_id_counter is Some
        }),
    ensures
        ({
            let d = gate_api::run(gate_api::create_step(e, t, c), db, from).0;
            let out = gate_api::run(gate_api::create_step(e, t, c), db, n).0;
            &&& only_row(out.cards, row)
            &&& cards::next_local(out) == cards::next_local(d) + (n - from)
            &&& out.card_id_counter is Some
        }),
    decreases n - from,
{
    if from < n {
        let m = (n - 1) as nat;
        lemma_later_creations(e, db, t, c, from, m, row);
        let mid = gate_api::run(gate_api::create_step(e, t, c), db, m).0;
        let taken = cards::id_taken(mid);
        let id = cards::next_id(mid);
        let card = cards::fresh_card(
            id,
            packed::on_surface(c.macro_zones@[m as int], c.surfaces@[m as int]),
            Micro::Loose { local_q: 0, local_r: 0, x: 0, y: 0 },
            c.owners@[m as int],
            c.defs@[m as int],
            0,
            if m < c.stocks@.len() {
                c.stocks@[m as int] as u64
            } else {
                0
            },
        );
        assert(id % 0x10_0000 == cards::next_local(mid));
        lemma_write_keeps_only(e, taken, card, t, cards::cascade_depth(taken), row);
        lemma_run_is_ok(gate_api::create_step(e, t, c), db, m);
        assert(gate_api::run(gate_api::create_step(e, t, c), db, n).0 == cards::after_write(
            e,
            taken,
            card,
            t,
        ));
    }
}

proof fn lemma_run_is_ok(
    step: spec_fn(int, Db) -> (Db, Result<(), gate_api::ActionError>),
    db: Db,
    n: nat,
)
    requires
        forall|i: int, d: Db| (#[trigger] step(i, d)).1 is Ok,
    ensures
        gate_api::run(step, db, n).1 is Ok,
    decreases n,
{
    if n > 0 {
        lemma_run_is_ok(step, db, (n - 1) as nat);
    }
}

proof fn lemma_steps_keep_only(
    step: spec_fn(int, Db) -> (Db, Result<(), gate_api::ActionError>),
    db: Db,
    n: nat,
    row: Card,
)
    requires
        only_row(db.cards, row),
        forall|i: int, d: Db| 0 <= i < n && only_row(d.cards, row) ==> only_row(
            (#[trigger] step(i, d)).0.cards,
            row,
        ),
    ensures
        only_row(gate_api::run(step, db, n).0.cards, row),
    decreases n,
{
    if n > 0 {
        lemma_steps_keep_only(step, db, (n - 1) as nat, row);
    }
}

/// After a successful action every row of its created card `i` is what the action asked
/// for: on the surface and in the zone given for it, of the definition, the owner and
/// the stock given for it. Later parts of the action that do not name the card leave it
/// alone.
pub proof fn actions_create_what_they_ask_for(e: Env, db: Db, a: gate_api::CardAction, i: nat)
    requires
        a.wf(),
        a.completion_ms < packed::TIME_RADIX,
        i < a.creations.defs@.len(),
        gate_api::action_applied(e, db, a).1 is Ok,
        ({
            let before = before_creation(e, db, a, i);
            let id = cards::next_id(before);
            &&& history::distinct_versions(before.cards)
            &&& unused(before.cards, id)
            &&& !a.stock_card_ids@.contains(id)
            &&& !a.reroots.ids@.contains(id)
            &&& cards::next_local(before) + a.creations.defs@.len() <= packed::CARD_LOCAL_MASK
        }),
    ensures
        ({
            let out = gate_api::action_applied(e, db, a).0.cards;
            let id = cards::next_id(before_creation(e, db, a, i));
            let made = before_creation(e, db, a, i + 1).cards;
            &&& history::prior_at(made, id, a.completion_ms) matches Some(row) && is_creation(
                row,
                a.creations,
                i as int,
            )
            &&& forall|k: int|
                0 <= k < out.len() && (#[trigger] out[k]).card_id == id ==> is_creation(
                    out[k],
                    a.creations,
                    i as int,
                ) && history::time(out[k]) == a.completion_ms
        }),
{
    let start = before_creations(e, db, a);
    let row = lemma_creation_lasts(e, start, a.completion_ms, a.creations, i);
    let created = gate_api::run(
        gate_api::create_step(e, a.completion_ms, a.creations),
        start,
        a.creations.defs@.len(),
    );
    lemma_rest_keeps_only(e, created, a, row);
    lemma_creations_come_in_the_middle(e, db, a);
}

proof fn lemma_id_local(db: Db)
    requires
        cards::next_local(db) <= packed::CARD_LOCAL_MASK,
    ensures
        cards::next_id(db) % 0x10_0000 == cards::next_local(db),
{
}

/// A created card is still what was asked for after the other creations.
#[verifier::rlimit(60)]
#[verifier::spinoff_prover]
proof fn lemma_creation_lasts(e: Env, start: Db, t: u64, c: gate_api::Creations, i: nat) -> (row: Card)
    requires
        c.wf(),
        t < packed::TIME_RADIX,
        i < c.defs@.len(),
        ({
            let before = gate_api::run(gate_api::create_step(e, t, c), start, i).0;
            &&& history::distinct_versions(before.cards)
            &&& unused(before.cards, cards::next_id(before))
            &&& cards::next_local(before) + c.defs@.len() <= packed::CARD_LOCAL_MASK
        }),
    ensures
        ({
            let before = gate_api::run(gate_api::create_step(e, t, c), start, i).0;
            let made = gate_api::run(gate_api::create_step(e, t, c), start, i + 1).0;
            &&& row.card_id == cards::next_id(before)
            &&& is_creation(row, c, i as int)
            &&& history::time(row) == t
            &&& history::prior_at(made.cards, row.card_id, t) == Some(row)
        }),
        only_row(
            gate_api::run(gate_api::create_step(e, t, c), start, c.defs@.len()).0.cards,
            row,
        ),
{
    let step = gate_api::create_step(e, t, c);
    let before = gate_api::run(step, start, i).0;
    let id = cards::next_id(before);
    lemma_run_is_ok(step, start, i);
    creations_are_as_asked(e, before, t, c, i as int);
    let made = gate_api::run(step, start, i + 1).0;
    assert(made == step(i as int, before).0);
    lemma_creation_takes_one_id(e, before, t, c, i as int);
    let row = history::prior_at(made.cards, id, t)->0;
    assert(row.card_id == id);
    lemma_id_local(before);
    lemma_later_creations(e, start, t, c, i + 1, c.defs@.len(), row);
    row
}

/// The parts of an action that follow its creations.
spec fn after_creations(
    e: Env,
    created: (Db, Result<(), gate_api::ActionError>),
    a: gate_api::CardAction,
) -> (Db, Result<(), gate_api::ActionError>) {
    let t = a.completion_ms;
    let told = gate_api::carried_on(
        created,
        gate_api::unlock_step(a.unlock_targets@, a.unlock_blueprints@),
        a.unlock_targets@.len(),
    );
    let counted = gate_api::carried_on(told, gate_api::stat_step(t, a.stats), a.stats.souls@.len());
    let stocked = gate_api::carried_on(
        counted,
        gate_api::stock_step(e, t, a.stock_card_ids@, a.stock_values@),
        a.stock_card_ids@.len(),
    );
    gate_api::carried_on(stocked, gate_api::reroot_step(e, t, a.reroots), a.reroots.ids@.len())
}

proof fn lemma_creations_come_in_the_middle(e: Env, db: Db, a: gate_api::CardAction)
    requires
        gate_api::action_applied(e, db, a).1 is Ok,
    ensures
        gate_api::action_applied(e, db, a) == after_creations(
            e,
            gate_api::run(
                gate_api::create_step(e, a.completion_ms, a.creations),
                before_creations(e, db, a),
                a.creations.defs@.len(),
            ),
            a,
        ),
{
}

proof fn lemma_rest_keeps_only(
    e: Env,
    created: (Db, Result<(), gate_api::ActionError>),
    a: gate_api::CardAction,
    row: Card,
)
    requires
        only_row(created.0.cards, row),
        row.flags % 16 == 0,
        !a.stock_card_ids@.contains(row.card_id),
        !a.reroots.ids@.contains(row.card_id),
    ensures
        only_row(after_creations(e, created, a).0.cards, row),
{
    let t = a.completion_ms;
    let id = row.card_id;
    let unlock = gate_api::unlock_step(a.unlock_targets@, a.unlock_blueprints@);
    let told = gate_api::carried_on(created, unlock, a.unlock_targets@.len());
    lemma_steps_keep_only(unlock, created.0, a.unlock_targets@.len(), row);
    let stat = gate_api::stat_step(t, a.stats);
    let counted = gate_api::carried_on(told, stat, a.stats.souls@.len());
    lemma_steps_keep_only(stat, told.0, a.stats.souls@.len(), row);
    let stock = gate_api::stock_step(e, t, a.stock_card_ids@, a.stock_values@);
    assert forall|j: int, d: Db|
        0 <= j < a.stock_card_ids@.len() && only_row(d.cards, row) implies only_row(
        (#[trigger] stock(j, d)).0.cards,
        row,
    ) by {
        assert(a.stock_card_ids@[j] != id);
        lemma_edit_keeps_only(
            e,
            d,
            a.stock_card_ids@[j],
            t,
            gate_api::restocked(a.stock_values@[j]),
            row,
        );
    }
    lemma_steps_keep_only(stock, counted.0, a.stock_card_ids@.len(), row);
    let stocked = gate_api::carried_on(counted, stock, a.stock_card_ids@.len());
    let reroot = gate_api::reroot_step(e, t, a.reroots);
    assert forall|j: int, d: Db| 0 <= j < a.reroots.ids@.len() && only_row(d.cards, row) implies only_row(
        (#[trigger] reroot(j, d)).0.cards,
        row,
    ) by {
        assert(a.reroots.ids@[j] != id);
        lemma_edit_keeps_only(
            e,
            d,
            a.reroots.ids@[j],
            t,
            crate::shard::place::put(
                a.reroots.macro_zones@[j],
                model::decoded(a.reroots.micro_locations@[j], a.reroots.stack_states@[j] as u32),
            ),
            row,
        );
    }
    lemma_steps_keep_only(reroot, stocked.0, a.reroots.ids@.len(), row);
}

proof fn lemma_creation_takes_one_id(e: Env, db: Db, t: u64, c: gate_api::Creations, i: int)
    requires
        unused(db.cards, cards::next_id(db)),
        cards::next_local(db) < packed::CARD_LOCAL_MASK,
    ensures
        ({
            let d = gate_api::create_step(e, t, c)(i, db).0;
            &&& d.card_id_counter is Some
            &&& cards::next_local(d) == cards::next_local(db) + 1
        }),
{
    let id = cards::next_id(db);
    history::prior_at_is_greatest(db.cards, id, t);
    outcomes::lemma_nothing_shared(e.state.dead);
    assert(history::prior_at(cards::id_taken(db).cards, id, t) is None);
}

/// A free soul of the caller, of the definition claimed, that stands on the hex it is said
/// to leave may step to a hex next to it, where the arrival comes after the departure, by
/// no more than a step may take, and the departure is no longer ago than that.
pub proof fn free_souls_may_step_next_door(
    e: Env,
    db: Db,
    client_time_ms: u64,
    now: u64,
    caller: u32,
    soul_id: u32,
    soul_def: u16,
    from: (i32, i32),
    to: (i32, i32),
    dest: TilePoint,
    depart_ms: u64,
    arrival_ms: u64,
    c: Card,
    d: Card,
)
    requires
        time::resolved(e.now_ms, client_time_ms, cards::TIME_DRIFT_BUFFER_MS) == Ok::<
            u64,
            TimeDrift,
        >(now),
        history::prior_at(db.cards, soul_id, now) == Some(c),
        cards::player_of(e, db, soul_id) == Some(caller),
        model::hold_value(e.layout, c.flags, HoldField::SlotClaim) == 0,
        model::hold_value(e.layout, c.flags, HoldField::SlotBorrow) == 0,
        model::hold_value(e.layout, c.flags, HoldField::PositionHold) == 0,
        c.packed_definition == soul_def,
        history::prior_at(db.cards, soul_id, depart_ms) == Some(d),
        movement::world_hex(d.macro_zone, d.micro_location, d.flags) == Some(from),
        movement::world_hex(
            packed::on_surface(dest.macro_zone, dest.surface),
            dest.micro_location,
            0,
        ) == Some(to),
        from != to,
        -1 <= to.0 - from.0 <= 1,
        -1 <= to.1 - from.1 <= 1,
        -1 <= (to.0 - from.0) + (to.1 - from.1) <= 1,
        depart_ms < arrival_ms <= depart_ms + movement::MAX_STEP_MS,
        now <= depart_ms + movement::MAX_STEP_MS,
    ensures
        movement::soul_moved(
            e,
            db,
            client_time_ms,
            caller,
            soul_id,
            soul_def,
            from,
            dest,
            depart_ms,
            arrival_ms,
        ).1 is Ok,
{
}

} // verus!
