//! What card operations come to: the row that a reader finds after them.
use vstd::prelude::*;

use crate::cards::blueprints;
use crate::cards::cards;
use crate::cards::cards::Card;
use crate::cards::env::Env;
use crate::cards::env::HoldKind;
use crate::cards::gate_api;
use crate::cards::keys;
use crate::cards::laws;
use crate::cards::micro;
use crate::cards::micro::Micro;
use crate::cards::utilities;
use crate::history;
use crate::packed;
use crate::players::souls;
use crate::players::souls::Soul;
use crate::players::souls::StatField;
use crate::tables::Db;
use crate::time;
use crate::time::TimeDrift;

verus! {

/// The card in force at `t` waits on no host.
pub open spec fn stands_alone(e: Env, rows: Seq<Card>, id: u32, t: u64) -> bool {
    history::prior_at(rows, id, t) matches Some(c) ==> !(cards::is_member(e, c) && cards::branch_of(
        e,
        c,
    ) == packed::STACK_STATE_DEFERRED)
}

proof fn lemma_no_follower(
    e: Env,
    rows: Seq<Card>,
    prefix: Seq<Card>,
    host: u32,
    t: u64,
    id: u32,
)
    requires
        stands_alone(e, rows, id, t),
    ensures
        !cards::follower_ids(e, rows, prefix, host, t).contains(id),
    decreases prefix.len(),
{
    if prefix.len() > 0 {
        let before = cards::follower_ids(e, rows, prefix.drop_last(), host, t);
        lemma_no_follower(e, rows, prefix.drop_last(), host, t, id);
        let out = cards::follower_ids(e, rows, prefix, host, t);
        if out.contains(id) {
            let k = choose|k: int| 0 <= k < out.len() && out[k] == id;
            if k < before.len() {
                assert(before[k] == id);
            }
        }
    }
}

/// Bringing followers in step leaves a card alone that waits on no host.
proof fn lemma_followers_spare(
    e: Env,
    db: Db,
    ids: Seq<u32>,
    host_died: bool,
    macro_zone: u64,
    t: u64,
    depth: nat,
    id: u32,
)
    requires
        t < packed::TIME_RADIX,
        history::distinct_versions(db.cards),
        keys::followers_take_free_keys(e, db, ids, host_died, macro_zone, t, depth),
        stands_alone(e, db.cards, id, t),
        !ids.contains(id),
    ensures
        ({
            let d = cards::followers_written(e, db, ids, host_died, macro_zone, t, depth);
            &&& history::distinct_versions(d.cards)
            &&& history::prior_at(d.cards, id, t) == history::prior_at(db.cards, id, t)
        }),
    decreases depth, ids.len() + 1,
{
    if ids.len() > 0 {
        let init = ids.drop_last();
        assert forall|k: int| 0 <= k < init.len() implies init[k] != id by {
            assert(ids[k] == init[k]);
        }
        lemma_followers_spare(e, db, init, host_died, macro_zone, t, depth, id);
        let d = cards::followers_written(e, db, init, host_died, macro_zone, t, depth);
        if let Some(c) = history::prior_at(d.cards, ids.last(), t) {
            history::prior_at_is_greatest(d.cards, ids.last(), t);
            assert(ids[ids.len() - 1] == ids.last());
            lemma_others_spared(
                e,
                d,
                cards::follower_edit(host_died, macro_zone, c),
                t,
                depth,
                id,
            );
        }
    }
}

proof fn lemma_others_spared(e: Env, db: Db, card: Card, t: u64, depth: nat, id: u32)
    requires
        t < packed::TIME_RADIX,
        history::distinct_versions(db.cards),
        keys::write_takes_free_keys(e, db, card, t, depth),
        stands_alone(e, db.cards, id, t),
        id != card.card_id,
    ensures
        ({
            let d = cards::written(e, db, card, t, depth);
            &&& history::distinct_versions(d.cards)
            &&& history::prior_at(d.cards, id, t) == history::prior_at(db.cards, id, t)
        }),
    decreases depth, 0nat,
{
    laws::write_is_isolated(e, db, card, t, id, t);
    laws::writes_keep_versions_distinct(e, db, card, t, 0);
    let d = cards::row_written(e, db, card, t);
    let prev = history::prior_at(db.cards, card.card_id, t);
    let moved = match prev {
        Some(p) => p.macro_zone != card.macro_zone,
        None => false,
    };
    let died = cards::is_dead(e, card) && match prev {
        Some(p) => !cards::is_dead(e, p),
        None => true,
    };
    if depth > 0 && (moved || died) {
        lemma_no_follower(e, d.cards, d.cards, card.card_id, t, id);
        lemma_followers_spare(
            e,
            d,
            cards::follower_ids(e, d.cards, d.cards, card.card_id, t),
            died,
            card.macro_zone,
            t,
            (depth - 1) as nat,
            id,
        );
    }
}

/// A write under free keys, with every follower it moves, leaves every other card
/// alone that waits on no host.
pub proof fn writes_spare_cards_that_stand_alone(e: Env, db: Db, card: Card, t: u64, id: u32)
    requires
        t < packed::TIME_RADIX,
        history::distinct_versions(db.cards),
        keys::write_takes_free_keys(e, db, card, t, cards::cascade_depth(db)),
        stands_alone(e, db.cards, id, t),
        id != card.card_id,
    ensures
        history::prior_at(cards::after_write(e, db, card, t).cards, id, t) == history::prior_at(
            db.cards,
            id,
            t,
        ),
        history::distinct_versions(cards::after_write(e, db, card, t).cards),
{
    lemma_others_spared(e, db, card, t, cards::cascade_depth(db), id);
}

/// A card that waits on no host is found as it was written, also where it takes its
/// followers along.
pub proof fn writes_are_found(e: Env, db: Db, card: Card, t: u64)
    requires
        t < packed::TIME_RADIX,
        history::distinct_versions(db.cards),
        keys::write_takes_free_keys(e, db, card, t, cards::cascade_depth(db)),
        !(cards::is_member(e, cards::stamped(e, db, card, t)) && cards::branch_of(
            e,
            cards::stamped(e, db, card, t),
        ) == packed::STACK_STATE_DEFERRED),
    ensures
        history::distinct_versions(cards::after_write(e, db, card, t).cards),
        history::prior_at(cards::after_write(e, db, card, t).cards, card.card_id, t) == Some(
            cards::stamped(e, db, card, t),
        ),
{
    laws::write_reads_back(e, db, card, t);
    laws::writes_keep_versions_distinct(e, db, card, t, 0);
    let d = cards::row_written(e, db, card, t);
    let prev = history::prior_at(db.cards, card.card_id, t);
    let depth = cards::cascade_depth(db);
    let moved = match prev {
        Some(p) => p.macro_zone != card.macro_zone,
        None => false,
    };
    let died = cards::is_dead(e, card) && match prev {
        Some(p) => !cards::is_dead(e, p),
        None => true,
    };
    if moved || died {
        lemma_no_follower(e, d.cards, d.cards, card.card_id, t, card.card_id);
        lemma_followers_spare(
            e,
            d,
            cards::follower_ids(e, d.cards, d.cards, card.card_id, t),
            died,
            card.macro_zone,
            t,
            (depth - 1) as nat,
            card.card_id,
        );
    }
}

proof fn lemma_parts_apart(marks: u32, mic: u32, s: u32, x: u32)
    by (bit_vector)
    requires
        marks & ((mic | s) | x) == 0,
    ensures
        mic & marks == 0,
        s & marks == 0,
        x & marks == 0,
{
}

/// The row that a write stores is the card as it was given: its place, owner,
/// definition and state, its placement, and every bit of its bookkeeping word beside
/// the dirty markers. It is in force from the time of the write.
pub proof fn rows_are_stored_as_given(e: Env, db: Db, card: Card, t: u64, mask: u32)
    requires
        e.wf(),
        t < packed::TIME_RADIX,
        mask & (e.bk.position_dirty | e.bk.data_dirty) == 0,
    ensures
        ({
            let row = cards::stamped(e, db, card, t);
            &&& row.card_id == card.card_id
            &&& row.macro_zone == card.macro_zone
            &&& row.micro_location == card.micro_location
            &&& row.owner_id == card.owner_id
            &&& row.packed_definition == card.packed_definition
            &&& row.flags_state == card.flags_state
            &&& row.flags_bk & mask == card.flags_bk & mask
            &&& cards::placement(e, row) == cards::placement(e, card)
            &&& history::time(row) == t
        }),
{
    let pd = e.bk.position_dirty;
    let dd = e.bk.data_dirty;
    reveal(Env::laid_out);
    packed::valid_at_round_trip(t, db.next_sequence);
    lemma_parts_apart(pd | dd, e.bk.micro_is_card, e.bk.stack_state_mask, e.bk.stack_index_mask);
    laws::lemma_marks_leave_field(card.flags_bk, mask, pd, dd);
    laws::lemma_marks_leave_field(card.flags_bk, e.bk.micro_is_card, pd, dd);
    laws::lemma_marks_leave_field(card.flags_bk, e.bk.stack_state_mask, pd, dd);
    laws::lemma_marks_leave_field(card.flags_bk, e.bk.stack_index_mask, pd, dd);
}

/// A card about to be created is what its arguments say: the id, the zone, the owner
/// and the definition are theirs, it stands where the placement says, and its state
/// has the given flags and those of its definition, and no others.
pub proof fn created_cards_are_as_given(
    e: Env,
    card_id: u32,
    macro_zone: u64,
    m: Micro,
    owner_id: u32,
    packed_definition: u16,
    flags_state: u32,
    flags_bk: u32,
    other: u32,
)
    requires
        e.wf(),
        micro::fits(m, e.bk),
        other & micro::stack_mask(e.bk) == 0,
    ensures
        ({
            let c = cards::fresh_card(
                e,
                card_id,
                macro_zone,
                m,
                owner_id,
                packed_definition,
                flags_state,
                flags_bk,
            );
            &&& c.card_id == card_id
            &&& c.macro_zone == macro_zone
            &&& c.owner_id == owner_id
            &&& c.packed_definition == packed_definition
            &&& c.flags_state == flags_state | cards::definition_flags(e, packed_definition)
            &&& cards::placement(e, c) == m
            &&& c.flags_bk & other == flags_bk & other
        }),
{
    let c = Card {
        valid_at: 0,
        card_id,
        macro_zone,
        micro_location: 0,
        owner_id,
        packed_definition,
        flags_state: flags_state | cards::definition_flags(e, packed_definition),
        flags_bk,
    };
    laws::placed_card_reads_back(e, m, c);
    assert(micro::laid_out(e.bk)) by {
        reveal(Env::laid_out);
    }
    micro::placement_marks_members(m, flags_bk, e.bk, other);
}

/// A card is found after its creation as it was asked for.
pub proof fn created_cards_are_found(
    e: Env,
    db: Db,
    card_id: u32,
    t: u64,
    macro_zone: u64,
    m: Micro,
    owner_id: u32,
    packed_definition: u16,
    flags_state: u32,
    flags_bk: u32,
    other: u32,
)
    requires
        e.wf(),
        t < packed::TIME_RADIX,
        history::distinct_versions(db.cards),
        micro::fits(m, e.bk),
        m matches Micro::Stacked { branch, .. } ==> branch != packed::STACK_STATE_DEFERRED,
        other & micro::stack_mask(e.bk) == 0,
        other & (e.bk.position_dirty | e.bk.data_dirty) == 0,
        keys::write_takes_free_keys(
            e,
            db,
            cards::fresh_card(
                e,
                card_id,
                macro_zone,
                m,
                owner_id,
                packed_definition,
                flags_state,
                flags_bk,
            ),
            t,
            cards::cascade_depth(db),
        ),
    ensures
        ({
            let d = cards::after_write(
                e,
                db,
                cards::fresh_card(
                    e,
                    card_id,
                    macro_zone,
                    m,
                    owner_id,
                    packed_definition,
                    flags_state,
                    flags_bk,
                ),
                t,
            );
            &&& history::distinct_versions(d.cards)
            &&& history::prior_at(d.cards, card_id, t) matches Some(c) && c.card_id == card_id
                && c.macro_zone == macro_zone && c.owner_id == owner_id && c.packed_definition
                == packed_definition && c.flags_state == flags_state | cards::definition_flags(
                e,
                packed_definition,
            ) && cards::placement(e, c) == m && c.flags_bk & other == flags_bk & other
                && history::time(c) == t
        }),
{
    let card = cards::fresh_card(
        e,
        card_id,
        macro_zone,
        m,
        owner_id,
        packed_definition,
        flags_state,
        flags_bk,
    );
    created_cards_are_as_given(
        e,
        card_id,
        macro_zone,
        m,
        owner_id,
        packed_definition,
        flags_state,
        flags_bk,
        other,
    );
    rows_are_stored_as_given(e, db, card, t, other);
    let row = cards::stamped(e, db, card, t);
    assert(cards::placement(e, row) == m);
    writes_are_found(e, db, card, t);
}

// ---- gateway calls -------------------------------------------------
/// Setting bits sets them and leaves the others.
pub proof fn lemma_bits_set(word: u32, bits: u32)
    by (bit_vector)
    ensures
        (word | bits) & bits == bits,
        (word | bits) & !bits == word & !bits,
{
}

pub proof fn lemma_nothing_shared(bits: u32)
    by (bit_vector)
    ensures
        0u32 & bits == 0,
{
}

/// The location is the zone of `macro_zone` on `surface`: it keeps the owner band and
/// the coordinates, and has that surface byte.
pub open spec fn lies_on(location: u64, macro_zone: u64, surface: u8) -> bool {
    &&& location / 0x1_0000_0000 == macro_zone / 0x1_0000_0000
    &&& location / 0x100_0000 % 0x100 == surface
    &&& location % 0x100_0000 == macro_zone % 0x100_0000
}

pub proof fn lemma_lies_on(macro_zone: u64, surface: u8)
    ensures
        lies_on(packed::on_surface(macro_zone, surface), macro_zone, surface),
{
    let hi = macro_zone as int / 0x1_0000_0000;
    let lo = macro_zone as int % 0x100_0000;
    let k = hi * 0x1_0000_0000 + surface * 0x100_0000 + lo;
    assert(0 <= k <= u64::MAX);
    assert(k / 0x1_0000_0000 == hi);
    assert(k / 0x100_0000 == hi * 256 + surface);
    assert(k % 0x100_0000 == lo);
}

/// The two rows are of one card, with the same owner and definition.
pub open spec fn same_card(a: Card, b: Card) -> bool {
    a.card_id == b.card_id && a.owner_id == b.owner_id && a.packed_definition
        == b.packed_definition
}

/// Placing a card changes its place and its placement bits, and nothing else.
pub proof fn lemma_repositioned(e: Env, macro_zone: u64, m: Micro, c: Card, kind: HoldKind)
    requires
        e.wf(),
        micro::fits(m, e.bk),
    ensures
        ({
            let out = gate_api::repositioned(e, macro_zone, m, c);
            &&& same_card(out, c)
            &&& out.macro_zone == macro_zone
            &&& cards::placement(e, out) == m
            &&& out.flags_state & e.state.pos_need == e.state.pos_need
            &&& out.flags_state & !e.state.pos_need == c.flags_state & !e.state.pos_need
            &&& cards::hold_value(e, kind, out.flags_bk) == cards::hold_value(e, kind, c.flags_bk)
        }),
{
    let moved = Card { macro_zone, ..c };
    laws::placed_card_reads_back(e, m, moved);
    laws::placed_card_has_its_root(e, m, moved, kind);
    lemma_bits_set(c.flags_state, e.state.pos_need);
}

/// A moved card is found on the cell it was sent to, loose, on the surface and in the
/// zone that were asked for, with its position asserted. It is the same card with the
/// same holds, and its state is as it was beside that assertion.
pub proof fn moved_cards_stand_where_they_were_sent(
    e: Env,
    db: Db,
    card_id: u32,
    t: u64,
    surface: u8,
    macro_zone: u64,
    q: u8,
    r: u8,
    x: i16,
    y: i16,
    c: Card,
    kind: HoldKind,
)
    requires
        e.wf(),
        t < packed::TIME_RADIX,
        history::distinct_versions(db.cards),
        history::prior_at(db.cards, card_id, t) == Some(c),
        q < 8,
        r < 8,
        -2048 <= x < 2048,
        -2048 <= y < 2048,
        e.loose_kinds@[surface as int] <= e.bk.stack_state_max,
        keys::write_takes_free_keys(
            e,
            db,
            gate_api::repositioned(
                e,
                packed::on_surface(macro_zone, surface),
                Micro::Loose {
                    local_q: q,
                    local_r: r,
                    x,
                    y,
                    kind: e.loose_kinds@[surface as int],
                },
                c,
            ),
            t,
            cards::cascade_depth(db),
        ),
    ensures
        ({
            let cell = (q * 0x2000_0000 + r * 0x400_0000 + (x as int % 4096) * 0x4000 + (y as int
                % 4096) * 4) as u32;
            let out = gate_api::card_moved(e, db, card_id, t, surface, macro_zone, cell);
            &&& out.1 is Ok
            &&& history::prior_at(out.0.cards, card_id, t) matches Some(n) && same_card(n, c)
                && lies_on(n.macro_zone, macro_zone, surface) && cards::placement(e, n) == (
            Micro::Loose { local_q: q, local_r: r, x, y, kind: e.loose_kinds@[surface as int] })
                && n.flags_state & e.state.pos_need == e.state.pos_need && n.flags_state
                & !e.state.pos_need == c.flags_state & !e.state.pos_need && cards::hold_value(
                e,
                kind,
                n.flags_bk,
            ) == cards::hold_value(e, kind, c.flags_bk)
        }),
{
    let m = Micro::Loose { local_q: q, local_r: r, x, y, kind: e.loose_kinds@[surface as int] };
    let n = gate_api::repositioned(e, packed::on_surface(macro_zone, surface), m, c);
    packed::micro_loose_round_trip(q, r, x, y);
    lemma_lies_on(macro_zone, surface);
    lemma_repositioned(e, packed::on_surface(macro_zone, surface), m, c, kind);
    history::prior_at_is_greatest(db.cards, card_id, t);
    lemma_nothing_shared(e.bk.position_dirty | e.bk.data_dirty);
    rows_are_stored_as_given(e, db, n, t, 0);
    laws::marking_leaves_counts(e, n, Some(c), kind);
    writes_are_found(e, db, n, t);
}

/// A stacked card is found as a member of the stack it was put on, in that branch and
/// at that index, which stops at 15. It lies on the surface and in the zone that were
/// asked for, with its position asserted.
pub proof fn stacked_cards_are_members(
    e: Env,
    db: Db,
    card_id: u32,
    t: u64,
    surface: u8,
    macro_zone: u64,
    root: u32,
    branch: u8,
    index: u8,
    c: Card,
    kind: HoldKind,
)
    requires
        e.wf(),
        t < packed::TIME_RADIX,
        history::distinct_versions(db.cards),
        history::prior_at(db.cards, card_id, t) == Some(c),
        branch <= e.bk.stack_state_max,
        branch != packed::STACK_STATE_DEFERRED,
        15 <= e.bk.stack_index_max,
        keys::write_takes_free_keys(
            e,
            db,
            gate_api::repositioned(
                e,
                packed::on_surface(macro_zone, surface),
                Micro::Stacked {
                    root,
                    branch,
                    index: if index < 15 {
                        index
                    } else {
                        15
                    },
                },
                c,
            ),
            t,
            cards::cascade_depth(db),
        ),
    ensures
        ({
            let out = gate_api::card_stacked(
                e,
                db,
                card_id,
                t,
                surface,
                macro_zone,
                root,
                branch,
                index,
            );
            &&& out.1 is Ok
            &&& history::prior_at(out.0.cards, card_id, t) matches Some(n) && same_card(n, c)
                && lies_on(n.macro_zone, macro_zone, surface) && (cards::placement(
                e,
                n,
            ) matches Micro::Stacked { root: a, branch: b, index: i } && a == root && b == branch
                && i <= 15 && (index <= 15 ==> i == index) && (index > 15 ==> i == 15))
                && n.flags_state & e.state.pos_need == e.state.pos_need && n.flags_state
                & !e.state.pos_need == c.flags_state & !e.state.pos_need && cards::hold_value(
                e,
                kind,
                n.flags_bk,
            ) == cards::hold_value(e, kind, c.flags_bk)
        }),
{
    let m = Micro::Stacked {
        root,
        branch,
        index: if index < 15 {
            index
        } else {
            15
        },
    };
    let n = gate_api::repositioned(e, packed::on_surface(macro_zone, surface), m, c);
    lemma_lies_on(macro_zone, surface);
    lemma_repositioned(e, packed::on_surface(macro_zone, surface), m, c, kind);
    history::prior_at_is_greatest(db.cards, card_id, t);
    lemma_nothing_shared(e.bk.position_dirty | e.bk.data_dirty);
    rows_are_stored_as_given(e, db, n, t, 0);
    laws::marking_leaves_counts(e, n, Some(c), kind);
    writes_are_found(e, db, n, t);
}

proof fn lemma_finalized_bits(word: u32, need: u32, want: u32, style: u32, bits: u32)
    by (bit_vector)
    ensures
        (((word & !need & !want) & !style) | (bits & style)) & style == bits & style,
        (((word & !need & !want) & !style) | (bits & style)) & !style == (word & !(need | want))
            & !style,
{
}

/// A finalized card is found at its place with the progress style that was asked for.
/// Beside the style its state is as it was, but that no position is asserted.
pub proof fn finalized_cards_are_released(
    e: Env,
    db: Db,
    card_id: u32,
    t: u64,
    progress_style: u8,
    c: Card,
)
    requires
        e.wf(),
        t < packed::TIME_RADIX,
        history::distinct_versions(db.cards),
        history::prior_at(db.cards, card_id, t) == Some(c),
        e.state.dead & e.state.progress_style_mask == 0,
        e.state.dead & (e.state.pos_need | e.state.pos_want) == 0,
    ensures
        ({
            let out = gate_api::card_finalized(e, db, card_id, t, progress_style);
            let style = e.state.progress_style_mask;
            &&& out.1 is Ok
            &&& history::prior_at(out.0.cards, card_id, t) matches Some(n) && same_card(n, c)
                && n.macro_zone == c.macro_zone && cards::placement(e, n) == cards::placement(e, c)
                && n.flags_state & style == ((progress_style as u32)
                << e.state.progress_style_shift) & style && n.flags_state & !style == (
            c.flags_state & !(e.state.pos_need | e.state.pos_want)) & !style
        }),
{
    let n = gate_api::finalized(e, progress_style, c);
    lemma_finalized_bits(
        c.flags_state,
        e.state.pos_need,
        e.state.pos_want,
        e.state.progress_style_mask,
        (progress_style as u32) << e.state.progress_style_shift,
    );
    lemma_keeps_life(
        n.flags_state,
        c.flags_state,
        e.state.pos_need | e.state.pos_want,
        e.state.progress_style_mask,
        e.state.dead,
    );
    history::prior_at_is_greatest(db.cards, card_id, t);
    lemma_nothing_shared(e.bk.position_dirty | e.bk.data_dirty);
    rows_are_stored_as_given(e, db, n, t, 0);
    laws::write_reads_back(e, db, n, t);
    assert(cards::after_write(e, db, n, t) == cards::row_written(e, db, n, t));
}

proof fn lemma_keeps_life(out: u32, word: u32, pos: u32, style: u32, dead: u32)
    by (bit_vector)
    requires
        out & !style == (word & !pos) & !style,
        dead & style == 0,
        dead & pos == 0,
    ensures
        out & dead == word & dead,
{
}

/// A destroyed card is found dead where it was, and otherwise as it was.
pub proof fn destroyed_cards_are_dead(e: Env, db: Db, card_id: u32, t: u64, c: Card)
    requires
        e.wf(),
        t < packed::TIME_RADIX,
        history::distinct_versions(db.cards),
        history::prior_at(db.cards, card_id, t) == Some(c),
        !(cards::is_member(e, c) && cards::branch_of(e, c) == packed::STACK_STATE_DEFERRED),
        keys::write_takes_free_keys(
            e,
            db,
            Card { flags_state: c.flags_state | e.state.dead, ..c },
            t,
            cards::cascade_depth(db),
        ),
    ensures
        ({
            let out = gate_api::card_destroyed(e, db, card_id, t);
            &&& out.1 is Ok
            &&& history::prior_at(out.0.cards, card_id, t) matches Some(n) && same_card(n, c)
                && n.macro_zone == c.macro_zone && cards::placement(e, n) == cards::placement(e, c)
                && n.flags_state & e.state.dead == e.state.dead && n.flags_state & !e.state.dead
                == c.flags_state & !e.state.dead
        }),
{
    let n = Card { flags_state: c.flags_state | e.state.dead, ..c };
    lemma_bits_set(c.flags_state, e.state.dead);
    history::prior_at_is_greatest(db.cards, card_id, t);
    lemma_nothing_shared(e.bk.position_dirty | e.bk.data_dirty);
    rows_are_stored_as_given(e, db, n, t, 0);
    lemma_stamp_keeps_membership(e, db, n, t);
    writes_are_found(e, db, n, t);
}

/// Marking leaves a row a member of its stack, in its branch, or loose.
pub proof fn lemma_stamp_keeps_membership(e: Env, db: Db, card: Card, t: u64)
    requires
        e.wf(),
    ensures
        cards::is_member(e, cards::stamped(e, db, card, t)) == cards::is_member(e, card),
        cards::branch_of(e, cards::stamped(e, db, card, t)) == cards::branch_of(e, card),
{
    let pd = e.bk.position_dirty;
    let dd = e.bk.data_dirty;
    reveal(Env::laid_out);
    lemma_parts_apart(pd | dd, e.bk.micro_is_card, e.bk.stack_state_mask, e.bk.stack_index_mask);
    laws::lemma_marks_leave_field(card.flags_bk, e.bk.micro_is_card, pd, dd);
    laws::lemma_marks_leave_field(card.flags_bk, e.bk.stack_state_mask, pd, dd);
}

/// A card that the gateway creates is found under the next id, loose on the first cell
/// of the surface and zone that were asked for, of that definition and that owner's.
pub proof fn gateway_creations_are_as_asked(
    e: Env,
    db: Db,
    t: u64,
    packed_def: u16,
    surface: u8,
    macro_zone: u64,
    owner_id: u32,
)
    requires
        e.wf(),
        t < packed::TIME_RADIX,
        history::distinct_versions(db.cards),
        e.loose_kinds@[surface as int] <= e.bk.stack_state_max,
        keys::write_takes_free_keys(
            e,
            cards::id_taken(db),
            cards::fresh_card(
                e,
                cards::next_id(db),
                packed::on_surface(macro_zone, surface),
                Micro::Loose {
                    local_q: 0,
                    local_r: 0,
                    x: 0,
                    y: 0,
                    kind: e.loose_kinds@[surface as int],
                },
                owner_id,
                packed_def,
                0,
                0,
            ),
            t,
            cards::cascade_depth(db),
        ),
    ensures
        ({
            let d = gate_api::card_created(e, db, t, packed_def, surface, macro_zone, owner_id);
            history::prior_at(d.cards, cards::next_id(db), t) matches Some(c) && lies_on(
                c.macro_zone,
                macro_zone,
                surface,
            ) && c.owner_id == owner_id && c.packed_definition == packed_def && c.flags_state
                == cards::definition_flags(e, packed_def) && cards::placement(e, c) == (
            Micro::Loose {
                local_q: 0,
                local_r: 0,
                x: 0,
                y: 0,
                kind: e.loose_kinds@[surface as int],
            }) && history::time(c) == t
        }),
{
    lemma_lies_on(macro_zone, surface);
    lemma_nothing_shared(micro::stack_mask(e.bk));
    lemma_nothing_shared(e.bk.position_dirty | e.bk.data_dirty);
    utilities::lemma_no_flags(cards::definition_flags(e, packed_def));
    created_cards_are_found(
        e,
        cards::id_taken(db),
        cards::next_id(db),
        t,
        packed::on_surface(macro_zone, surface),
        Micro::Loose {
            local_q: 0,
            local_r: 0,
            x: 0,
            y: 0,
            kind: e.loose_kinds@[surface as int],
        },
        owner_id,
        packed_def,
        0,
        0,
        0,
    );
}

/// Byte `i` of a packed word, counted from the lowest.
pub open spec fn byte_of(word: u32, i: int) -> int {
    if i == 0 {
        word as int % 0x100
    } else if i == 1 {
        word as int / 0x100 % 0x100
    } else if i == 2 {
        word as int / 0x1_0000 % 0x100
    } else {
        word as int / 0x100_0000
    }
}

/// The word of a soul that a wire number names: its counts, its fatigued ones, its
/// injured ones.
pub open spec fn word_of(s: Soul, field: int) -> u32 {
    if field == 0 {
        s.stats
    } else if field == 1 {
        s.fatigued
    } else {
        s.injured
    }
}

/// Stepping a counter from the wire changes the byte that it names, by one, and no
/// other: up for a positive delta, else down, within a byte. The step is seen from its
/// time on, in every later version too, and not before; other souls are left alone.
pub proof fn wire_counters_step_by_one(
    db: Db,
    soul: u32,
    field: u8,
    byte_index: u8,
    delta: i8,
    t: u64,
    id: u32,
    at: u64,
    f: int,
    b: int,
)
    requires
        t < packed::TIME_RADIX,
        soul != 0,
        field < 3,
        byte_index < 4,
        history::distinct_versions(db.souls),
        history::key_free(db.souls, packed::valid_at_key(t, db.next_sequence)),
        history::prior_at(db.souls, soul, t) is Some,
        history::prior_at(db.souls, id, at) is Some,
        0 <= f < 3,
        0 <= b < 4,
    ensures
        ({
            let d = gate_api::stat_set(db, soul, field, byte_index, delta, t);
            let was = byte_of(word_of(history::prior_at(db.souls, id, at)->0, f), b);
            let hit = id == soul && at >= t && f == field && b == byte_index;
            history::prior_at(d.souls, id, at) matches Some(s) && byte_of(word_of(s, f), b) == if hit
                && delta > 0 && was < 255 {
                was + 1
            } else if hit && delta <= 0 && was > 0 {
                was - 1
            } else {
                was
            }
        }),
{
    lemma_counter_change(db.souls, db.next_sequence, soul, field, byte_index, delta, t, id, at, f, b);
}

/// The soul rows after a counter was stepped at `t` and in every later version.
pub proof fn lemma_counter_change(
    rows: Seq<Soul>,
    seq: u16,
    soul: u32,
    field: u8,
    byte_index: u8,
    delta: i8,
    t: u64,
    id: u32,
    at: u64,
    f: int,
    b: int,
)
    requires
        t < packed::TIME_RADIX,
        field < 3,
        byte_index < 4,
        history::distinct_versions(rows),
        history::key_free(rows, packed::valid_at_key(t, seq)),
        history::prior_at(rows, soul, t) is Some,
        history::prior_at(rows, id, at) is Some,
        0 <= f < 3,
        0 <= b < 4,
    ensures
        ({
            let x = gate_api::wire_slot(field, byte_index)->0;
            let row = Soul {
                valid_at: packed::valid_at_key(t, seq),
                ..souls::with_delta(history::prior_at(rows, soul, t)->0, x, delta)
            };
            let out = history::on_future(
                history::stored(rows, row, t),
                soul,
                t,
                souls::future_step(x, delta),
            );
            let was = byte_of(word_of(history::prior_at(rows, id, at)->0, f), b);
            let hit = id == soul && at >= t && f == field && b == byte_index;
            history::prior_at(out, id, at) matches Some(s) && byte_of(word_of(s, f), b) == if hit
                && delta > 0 && was < 255 {
                was + 1
            } else if hit && delta <= 0 && was > 0 {
                was - 1
            } else {
                was
            }
        }),
{
    let x = gate_api::wire_slot(field, byte_index)->0;
    let s = history::prior_at(rows, soul, t)->0;
    let p = history::prior_at(rows, id, at)->0;
    history::prior_at_is_greatest(rows, soul, t);
    history::prior_at_is_greatest(rows, id, at);
    let row = Soul {
        valid_at: packed::valid_at_key(t, seq),
        ..souls::with_delta(s, x, delta)
    };
    packed::valid_at_round_trip(t, seq);
    history::change_from_a_time(rows, row, t, souls::future_step(x, delta), id, at);
    lemma_counter_steps(s, field, byte_index, delta, f, b);
    lemma_counter_steps(p, field, byte_index, delta, f, b);
    if id == soul && at >= t && history::time(p) <= t {
        assert(history::covers(p, soul, t));
        assert(history::covers(s, soul, at));
        history::prior_at_unique(rows, soul, t, p);
    }
}

/// Stepping a counter of one row, byte by byte.
proof fn lemma_counter_steps(s: Soul, field: u8, byte_index: u8, delta: i8, f: int, b: int)
    requires
        field < 3,
        byte_index < 4,
        0 <= f < 3,
        0 <= b < 4,
    ensures
        ({
            let n = souls::with_delta(s, gate_api::wire_slot(field, byte_index)->0, delta);
            let was = byte_of(word_of(s, f), b);
            let hit = f == field && b == byte_index;
            byte_of(word_of(n, f), b) == if hit && delta > 0 && was < 255 {
                was + 1
            } else if hit && delta <= 0 && was > 0 {
                was - 1
            } else {
                was
            }
        }),
{
    let g = if f == 0 {
        StatField::Stats
    } else if f == 1 {
        StatField::Fatigued
    } else {
        StatField::Injured
    };
    let x = gate_api::wire_slot(field, byte_index)->0;
    souls::delta_is_isolated(s, x, delta, g, b as u8);
    lemma_byte_of(souls::field_of(s, g), b as u8);
    lemma_byte_of(souls::field_of(souls::with_delta(s, x, delta), g), b as u8);
}

proof fn lemma_byte_of(word: u32, b: u8)
    requires
        b < 4,
    ensures
        byte_of(word, b as int) == souls::quad_byte(word, b),
{
}

/// A joined bit is set, and the others are as they were; an empty word has none.
pub proof fn lemma_bit_joined(word: u64, n: u64, m: u64)
    by (bit_vector)
    requires
        n < 64,
        m < 64,
    ensures
        0u64 & (1u64 << m) == 0,
        (word | (1u64 << n)) & (1u64 << m) != 0 <==> n == m || word & (1u64 << m) != 0,
{
}

/// Discovering a blueprint sets its bit for that soul, the bit of the id less one, and
/// changes no other bit and no other soul.
pub proof fn unlocks_set_one_bit(db: Db, card_id: u32, blueprint_id: u16, other: u16, i: int)
    requires
        1 <= blueprint_id <= 64,
        1 <= other <= 64,
        souls::private_index(db.soul_privates, card_id) is Some,
        0 <= i < db.soul_privates.len(),
    ensures
        ({
            let out = gate_api::unlocked(db, card_id, blueprint_id);
            let k = souls::private_index(db.soul_privates, card_id)->0;
            &&& out.1 is Ok
            &&& 0 <= k < db.soul_privates.len()
            &&& db.soul_privates[k].card_id == card_id
            &&& out.0.soul_privates.len() == db.soul_privates.len()
            &&& out.0.soul_privates[k].blueprints_0 & (1u64 << ((other - 1) as u64)) != 0
                <==> other == blueprint_id || db.soul_privates[k].blueprints_0 & (1u64 << ((other
                - 1) as u64)) != 0
            &&& out.0.soul_privates[k].card_id == card_id
            &&& i != k ==> out.0.soul_privates[i] == db.soul_privates[i]
        }),
{
    souls::private_index_found(db.soul_privates, card_id);
    let k = souls::private_index(db.soul_privates, card_id)->0;
    lemma_bit_joined(
        db.soul_privates[k].blueprints_0,
        (blueprint_id - 1) as u64,
        (other - 1) as u64,
    );
}

/// A lease that is granted counts as one more reference of its family from the acquire
/// until the release, and as none outside that span.
pub proof fn granted_leases_run_their_time(
    e: Env,
    db: Db,
    card_id: u32,
    kind: u8,
    acquire_ms: u64,
    release_ms: u64,
    at: u64,
)
    requires
        e.wf(),
        kind < 6,
        acquire_ms < release_ms < packed::TIME_RADIX,
        history::distinct_versions(db.cards),
        history::prior_at(db.cards, card_id, acquire_ms) is Some,
        ({
            let k = wire_kind(kind);
            &&& history::key_free(db.cards, packed::valid_at_key(acquire_ms, db.next_sequence))
            &&& history::key_free(
                db.cards,
                packed::valid_at_key(
                    release_ms,
                    cards::held(e, db, card_id, acquire_ms, k, true).next_sequence,
                ),
            )
            &&& laws::count_at(e, db, card_id, k, at) < e.bk.spec_count_field(k).max
        }),
        gate_api::leased(e, db, card_id, kind, acquire_ms, release_ms).1 is Ok,
    ensures
        laws::count_at(
            e,
            gate_api::leased(e, db, card_id, kind, acquire_ms, release_ms).0,
            card_id,
            wire_kind(kind),
            at,
        ) == laws::count_at(e, db, card_id, wire_kind(kind), at) + if acquire_ms <= at
            < release_ms {
            1int
        } else {
            0int
        },
        kind == 1 ==> laws::count_at(e, db, card_id, HoldKind::SlotHold, acquire_ms) == 0
            && laws::count_at(e, db, card_id, HoldKind::SlotShare, acquire_ms) == 0,
        kind == 2 ==> laws::count_at(e, db, card_id, HoldKind::SlotHold, acquire_ms) == 0,
{
    laws::leases_expire(e, db, card_id, wire_kind(kind), acquire_ms, release_ms, at);
}

/// The hold families in the order of their wire numbers.
pub open spec fn wire_kind(kind: u8) -> HoldKind {
    seq![
        HoldKind::Touch,
        HoldKind::SlotHold,
        HoldKind::SlotShare,
        HoldKind::PositionHold,
        HoldKind::DropHold,
        HoldKind::Server,
    ][kind as int]
}

/// A card that is edited to stand at another place is found there, and is otherwise
/// the card it was.
pub proof fn relocated_cards_are_found(
    e: Env,
    db: Db,
    c: Card,
    t: u64,
    location: u64,
    m: Micro,
    kind: HoldKind,
)
    requires
        e.wf(),
        t < packed::TIME_RADIX,
        history::distinct_versions(db.cards),
        micro::fits(m, e.bk),
        m is Loose,
        keys::write_takes_free_keys(
            e,
            db,
            cards::placed(e, m, Card { macro_zone: location, ..c }),
            t,
            cards::cascade_depth(db),
        ),
    ensures
        ({
            let n = cards::placed(e, m, Card { macro_zone: location, ..c });
            let d = cards::after_write(e, db, n, t);
            &&& history::distinct_versions(d.cards)
            &&& history::prior_at(d.cards, c.card_id, t) matches Some(out) && same_card(out, c)
                && out.macro_zone == location && cards::placement(e, out) == m && out.flags_state
                == c.flags_state && cards::hold_value(e, kind, out.flags_bk) == cards::hold_value(
                e,
                kind,
                c.flags_bk,
            )
        }),
{
    let moved = Card { macro_zone: location, ..c };
    let n = cards::placed(e, m, moved);
    laws::placed_card_reads_back(e, m, moved);
    laws::placed_card_has_its_root(e, m, moved, kind);
    lemma_nothing_shared(e.bk.position_dirty | e.bk.data_dirty);
    rows_are_stored_as_given(e, db, n, t, 0);
    laws::marking_leaves_counts(e, n, history::prior_at(db.cards, n.card_id, t), kind);
    assert(cards::placement(e, cards::stamped(e, db, n, t)) == m);
    writes_are_found(e, db, n, t);
}

// ---- requests ------------------------------------------------------
/// The cell of a packed loose location.
pub open spec fn cell_of(micro_location: u32) -> (int, int) {
    (micro_location as int / 0x2000_0000, micro_location as int / 0x400_0000 % 8)
}

/// A card that is created loose at a packed cell is found there, on the surface and in
/// the zone that were asked for.
proof fn lemma_created_at(
    e: Env,
    db: Db,
    t: u64,
    surface: u8,
    macro_zone: u64,
    m: Micro,
    owner_id: u32,
    def: u16,
)
    requires
        e.wf(),
        t < packed::TIME_RADIX,
        history::distinct_versions(db.cards),
        m is Loose,
        micro::fits(m, e.bk),
        keys::write_takes_free_keys(
            e,
            cards::id_taken(db),
            cards::fresh_card(e, cards::next_id(db), macro_zone, m, owner_id, def, 0, 0),
            t,
            cards::cascade_depth(cards::id_taken(db)),
        ),
    ensures
        ({
            let d = cards::after_write(
                e,
                cards::id_taken(db),
                cards::fresh_card(e, cards::next_id(db), macro_zone, m, owner_id, def, 0, 0),
                t,
            );
            history::prior_at(d.cards, cards::next_id(db), t) matches Some(c) && c.macro_zone
                == macro_zone && c.owner_id == owner_id && c.packed_definition == def
                && cards::placement(e, c) == m
        }),
{
    lemma_nothing_shared(micro::stack_mask(e.bk));
    lemma_nothing_shared(e.bk.position_dirty | e.bk.data_dirty);
    created_cards_are_found(
        e,
        cards::id_taken(db),
        cards::next_id(db),
        t,
        macro_zone,
        m,
        owner_id,
        def,
        0,
        0,
        0,
    );
}

/// A blueprint that is granted lies at the cell, on the surface and in the zone that
/// were asked for, and belongs to the soul. The soul was alive, unheld and the
/// caller's, had discovered the blueprint and had fewer active ones than it may build.
/// A refusal changes nothing.
pub proof fn granted_blueprints_lie_where_asked(
    e: Env,
    db: Db,
    client_time_ms: u64,
    t: u64,
    caller: u32,
    soul_card_id: u32,
    blueprint_id: u16,
    surface: u8,
    macro_zone: u64,
    micro_location: u32,
    max_active: i32,
    def: u16,
)
    requires
        e.wf(),
        t < packed::TIME_RADIX,
        history::distinct_versions(db.cards),
        e.loose_kinds@[surface as int] <= e.bk.stack_state_max,
        time::resolved(e.now_ms, client_time_ms, cards::TIME_DRIFT_BUFFER_MS) == Ok::<
            u64,
            TimeDrift,
        >(t),
        keys::write_takes_free_keys(
            e,
            cards::id_taken(db),
            cards::fresh_card(
                e,
                cards::next_id(db),
                packed::on_surface(macro_zone, surface),
                gate_api::loose_at(e, surface, micro_location),
                soul_card_id,
                def,
                0,
                0,
            ),
            t,
            cards::cascade_depth(cards::id_taken(db)),
        ),
    ensures
        ({
            let out = blueprints::requested(
                e,
                db,
                client_time_ms,
                caller,
                soul_card_id,
                blueprint_id,
                surface,
                macro_zone,
                micro_location,
                max_active,
                def,
            );
            &&& out.1 is Err ==> out.0 == db
            &&& out.1 is Ok ==> {
                &&& history::prior_at(out.0.cards, cards::next_id(db), t) matches Some(c)
                    && lies_on(c.macro_zone, macro_zone, surface) && c.owner_id == soul_card_id
                    && c.packed_definition == def && (cards::placement(e, c) matches Micro::Loose {
                    local_q,
                    local_r,
                    ..
                } && (local_q as int, local_r as int) == cell_of(micro_location))
                &&& history::prior_at(db.cards, soul_card_id, t) matches Some(s) && s.flags_state
                    & e.state.dead == 0 && s.packed_definition / 4096 == souls::SOUL_CARD_TYPE
                    && cards::hold_value(e, HoldKind::SlotHold, s.flags_bk) == 0
                    && cards::hold_value(e, HoldKind::SlotShare, s.flags_bk) == 0
                    && cards::hold_value(e, HoldKind::PositionHold, s.flags_bk) == 0
                &&& 1 <= blueprint_id <= 64
                &&& def != 0
                &&& souls::private_index(db.soul_privates, soul_card_id) matches Some(i)
                    && db.soul_privates[i].blueprints_0 & (1u64 << ((blueprint_id - 1) as u64)) != 0
                    && db.soul_privates[i].active_blueprints < max_active
            }
        }),
{
    lemma_lies_on(macro_zone, surface);
    let m = gate_api::loose_at(e, surface, micro_location);
    lemma_created_at(
        e,
        db,
        t,
        surface,
        packed::on_surface(macro_zone, surface),
        m,
        soul_card_id,
        def,
    );
}

/// A card that is added to a soul is found in the soul's inventory and belongs to it.
pub proof fn added_cards_lie_in_the_inventory(
    e: Env,
    db: Db,
    client_time_ms: u64,
    t: u64,
    soul_card_id: u32,
    def: u16,
)
    requires
        e.wf(),
        t < packed::TIME_RADIX,
        history::distinct_versions(db.cards),
        e.loose_rect <= e.bk.stack_state_max,
        time::resolved(e.now_ms, client_time_ms, cards::TIME_DRIFT_BUFFER_MS) == Ok::<
            u64,
            TimeDrift,
        >(t),
        keys::write_takes_free_keys(
            e,
            cards::id_taken(db),
            cards::fresh_card(
                e,
                cards::next_id(db),
                packed::macro_zone_key(soul_card_id, 1, 0, 0),
                Micro::Loose { local_q: 0, local_r: 0, x: 0, y: 0, kind: e.loose_rect },
                soul_card_id,
                def,
                0,
                0,
            ),
            t,
            cards::cascade_depth(cards::id_taken(db)),
        ),
    ensures
        ({
            let out = utilities::card_added(e, db, client_time_ms, soul_card_id, def);
            &&& out.1 is Ok <==> (cards::player_of(e, db, soul_card_id) matches Some(p) && p != 0)
            &&& out.1 is Err ==> out.0 == db
            &&& out.1 is Ok ==> (history::prior_at(out.0.cards, cards::next_id(db), t) matches Some(
                c,
            ) && c.owner_id == soul_card_id && c.packed_definition == def && c.macro_zone
                / 0x1_0000_0000 == soul_card_id && c.macro_zone / 0x100_0000 % 0x100 == 1
                && c.macro_zone % 0x100_0000 == 0)
        }),
{
    let m = Micro::Loose { local_q: 0, local_r: 0, x: 0, y: 0, kind: e.loose_rect };
    let key = packed::macro_zone_key(soul_card_id, 1, 0, 0);
    assert(key == soul_card_id * 0x1_0000_0000 + 0x100_0000);
    lemma_created_at(e, db, t, 1, key, m, soul_card_id, def);
}

/// A reference that is taken or given back over the wire counts one more or one less
/// of its family from then on, within the bounds of the family, and not before.
pub proof fn wire_holds_count_one(
    e: Env,
    db: Db,
    card_id: u32,
    t: u64,
    kind: u8,
    up: bool,
    at: u64,
)
    requires
        e.wf(),
        kind < 6,
        t < packed::TIME_RADIX,
        history::distinct_versions(db.cards),
        history::key_free(db.cards, packed::valid_at_key(t, db.next_sequence)),
        history::prior_at(db.cards, card_id, t) is Some,
    ensures
        ({
            let out = gate_api::dispatched(e, db, card_id, t, kind, up);
            let was = laws::count_at(e, db, card_id, wire_kind(kind), at);
            let max = e.bk.spec_count_field(wire_kind(kind)).max;
            &&& out.1 is Ok
            &&& laws::count_at(e, out.0, card_id, wire_kind(kind), at) == if at < t {
                was as int
            } else if up {
                if was < max {
                    was + 1
                } else {
                    max as int
                }
            } else if was > 0 {
                was - 1
            } else {
                0
            }
        }),
{
    laws::holds_count_from_then_on(e, db, card_id, t, wire_kind(kind), up, at);
}

// ---- owners --------------------------------------------------------
/// A soul that contains a card is marked as owned by a player, and that player is who
/// owns the card in the end.
pub proof fn souls_lead_to_their_player(e: Env, db: Db, card_id: u32, t: u64)
    ensures
        cards::soul_at(e, db, card_id, t) matches Some(s) ==> (history::prior_at(
            db.cards,
            s,
            t,
        ) matches Some(c) && c.flags_state & e.state.is_owned_by_player != 0 && cards::player_at(
            e,
            db,
            card_id,
            t,
        ) == Some(c.owner_id)),
        cards::soul_at(e, db, card_id, t) is None ==> (cards::player_at(e, db, card_id, t) matches Some(
            p,
        ) ==> p == 0),
{
    lemma_walk_ends_at_a_soul(e, db.cards, card_id, t, 32);
}

proof fn lemma_walk_ends_at_a_soul(e: Env, rows: Seq<Card>, card_id: u32, t: u64, steps: nat)
    ensures
        cards::owner_walk(e, rows, card_id, t, steps) matches cards::OwnerWalk::Soul(s, p) ==> (
        history::prior_at(rows, s, t) matches Some(c) && c.flags_state & e.state.is_owned_by_player
            != 0 && c.owner_id == p),
    decreases steps,
{
    if steps > 0 {
        if let Some(row) = history::prior_at(rows, card_id, t) {
            lemma_walk_ends_at_a_soul(e, rows, row.owner_id, t, (steps - 1) as nat);
        }
    }
}

/// What a card is in, its owner is in: an item belongs to the soul and to the player
/// that its owner belongs to, as far as the chain is followed for both.
pub proof fn items_belong_where_their_owner_does(e: Env, db: Db, card_id: u32, t: u64, c: Card)
    requires
        history::prior_at(db.cards, card_id, t) == Some(c),
        c.flags_state & e.state.is_owned_by_player == 0,
        c.owner_id != 0,
        cards::player_at(e, db, card_id, t) is Some,
    ensures
        cards::player_at(e, db, c.owner_id, t) == cards::player_at(e, db, card_id, t),
        cards::soul_at(e, db, c.owner_id, t) == cards::soul_at(e, db, card_id, t),
{
    lemma_longer_walks(e, db.cards, c.owner_id, t, 31);
    assert(cards::owner_walk(e, db.cards, card_id, t, 32) == cards::owner_walk(
        e,
        db.cards,
        c.owner_id,
        t,
        31,
    ));
}

proof fn lemma_longer_walks(e: Env, rows: Seq<Card>, card_id: u32, t: u64, steps: nat)
    ensures
        !(cards::owner_walk(e, rows, card_id, t, steps) is Lost) ==> cards::owner_walk(
            e,
            rows,
            card_id,
            t,
            steps + 1,
        ) == cards::owner_walk(e, rows, card_id, t, steps),
    decreases steps,
{
    if steps > 0 {
        if let Some(row) = history::prior_at(rows, card_id, t) {
            lemma_longer_walks(e, rows, row.owner_id, t, (steps - 1) as nat);
        }
    }
}

/// A soul is its own container, and the items that it owns share it.
pub proof fn souls_contain_their_items(e: Env, db: Db, soul: u32, item: u32, t: u64, s: Card, c: Card)
    requires
        history::prior_at(db.cards, soul, t) == Some(s),
        s.flags_state & e.state.is_owned_by_player != 0,
        history::prior_at(db.cards, item, t) == Some(c),
        c.flags_state & e.state.is_owned_by_player == 0,
        c.owner_id == soul,
    ensures
        cards::container_at(e, db, soul, t) == soul,
        cards::container_at(e, db, item, t) == cards::container_at(e, db, soul, t),
        soul != 0 ==> cards::soul_at(e, db, item, t) == Some(soul),
{
    reveal_with_fuel(cards::owner_walk, 3);
}

/// The number of times that one goes up from a card to its owner.
pub open spec fn above(e: Env, rows: Seq<Card>, card_id: u32, t: u64, n: nat) -> Option<u32>
    decreases n,
{
    if n == 0 {
        Some(card_id)
    } else {
        match history::prior_at(rows, card_id, t) {
            Some(c) if c.flags_state & e.state.is_owned_by_player == 0 && c.owner_id != 0 => above(
                e,
                rows,
                c.owner_id,
                t,
                (n - 1) as nat,
            ),
            _ => None,
        }
    }
}

/// An owner that is let through never is, nor ever leads up to, the card itself.
pub proof fn accepted_owners_close_no_loop(e: Env, db: Db, card_id: u32, new_owner: u32, n: nat)
    requires
        !cards::closes_cycle(e, db, card_id, new_owner),
        new_owner != 0,
    ensures
        above(e, db.cards, new_owner, e.now_ms, n) != Some(card_id),
{
    lemma_never_above(e, db.cards, new_owner, card_id, e.now_ms, 32, n);
}

proof fn lemma_never_above(
    e: Env,
    rows: Seq<Card>,
    cur: u32,
    card_id: u32,
    t: u64,
    steps: nat,
    n: nat,
)
    requires
        cur != card_id,
        !cards::reaches(e, rows, cur, card_id, t, steps),
    ensures
        above(e, rows, cur, t, n) != Some(card_id),
    decreases n,
{
    if n > 0 {
        if let Some(c) = history::prior_at(rows, cur, t) {
            if c.flags_state & e.state.is_owned_by_player == 0 && c.owner_id != 0 {
                lemma_never_above(
                    e,
                    rows,
                    c.owner_id,
                    card_id,
                    t,
                    (steps - 1) as nat,
                    (n - 1) as nat,
                );
            }
        }
    }
}

/// An owner that leads up to the card is refused.
pub proof fn loops_are_refused(e: Env, db: Db, card_id: u32, new_owner: u32, n: nat)
    requires
        new_owner != 0,
        above(e, db.cards, new_owner, e.now_ms, n) == Some(card_id),
    ensures
        cards::closes_cycle(e, db, card_id, new_owner),
{
    if !cards::closes_cycle(e, db, card_id, new_owner) {
        accepted_owners_close_no_loop(e, db, card_id, new_owner, n);
    }
}

/// The souls that a player is counted for are those whose newest row is alive, marked
/// as owned by a player, and that player's; each is counted once.
pub proof fn counted_souls_are_the_players(e: Env, rows: Seq<Card>, player_id: u32, id: u32)
    ensures
        cards::player_souls(e, rows, rows, player_id).no_duplicates(),
        cards::player_souls(e, rows, rows, player_id).contains(id) <==> (history::latest(
            rows,
            id,
        ) matches Some(c) && c.owner_id == player_id && c.flags_state & e.state.is_owned_by_player
            != 0 && c.flags_state & e.state.dead == 0),
{
    lemma_counted(e, rows, rows, player_id, id);
    history::prior_at_is_greatest(rows, id, u64::MAX);
    if let Some(c) = history::latest(rows, id) {
        let k = choose|k: int| 0 <= k < rows.len() && rows[k] == c;
        assert(rows[k].card_id == id);
    }
}

proof fn lemma_counted(e: Env, rows: Seq<Card>, prefix: Seq<Card>, player_id: u32, id: u32)
    ensures
        cards::player_souls(e, rows, prefix, player_id).no_duplicates(),
        cards::player_souls(e, rows, prefix, player_id).contains(id) <==> cards::is_players_soul(
            e,
            rows,
            id,
            player_id,
        ) && exists|k: int| 0 <= k < prefix.len() && (#[trigger] prefix[k]).card_id == id,
    decreases prefix.len(),
{
    if prefix.len() > 0 {
        let init = prefix.drop_last();
        lemma_counted(e, rows, init, player_id, id);
        lemma_counted(e, rows, init, player_id, prefix.last().card_id);
        let before = cards::player_souls(e, rows, init, player_id);
        let out = cards::player_souls(e, rows, prefix, player_id);
        assert(prefix[prefix.len() - 1] == prefix.last());
        assert(forall|k: int| 0 <= k < init.len() ==> init[k] == prefix[k]);
        assert(forall|k: int| 0 <= k < before.len() ==> out[k] == before[k]);
        if out.contains(id) {
            let k = choose|k: int| 0 <= k < out.len() && out[k] == id;
            if k < before.len() {
                assert(before[k] == id);
                let j = choose|j: int| 0 <= j < init.len() && (#[trigger] init[j]).card_id == id;
                assert(prefix[j].card_id == id);
            }
        }
        if cards::is_players_soul(e, rows, id, player_id) && exists|k: int|
            0 <= k < prefix.len() && (#[trigger] prefix[k]).card_id == id {
            let k = choose|k: int| 0 <= k < prefix.len() && (#[trigger] prefix[k]).card_id == id;
            if k < init.len() {
                assert(init[k].card_id == id);
            }
            if before.contains(id) {
                let j = choose|j: int| 0 <= j < before.len() && before[j] == id;
                assert(out[j] == id);
            } else {
                assert(out[out.len() - 1] == id);
            }
        }
    }
}

// ---- plain edits ---------------------------------------------------
/// A card that is redefined, or whose state is replaced, is found so, and is otherwise
/// as it was.
pub proof fn plain_edits_are_found(
    e: Env,
    db: Db,
    id: u32,
    c: Card,
    packed_definition: u16,
    flags_state: u32,
)
    requires
        e.wf(),
        e.now_ms < packed::TIME_RADIX,
        history::distinct_versions(db.cards),
        history::prior_at(db.cards, id, e.now_ms) == Some(c),
        flags_state & e.state.dead == c.flags_state & e.state.dead,
    ensures
        ({
            let d = cards::edited(
                e,
                db,
                id,
                e.now_ms,
                |c: Card| cards::redefined(c, packed_definition),
            );
            history::prior_at(d.cards, id, e.now_ms) matches Some(n) && n.packed_definition
                == packed_definition && n.flags_state == c.flags_state && n.owner_id == c.owner_id
                && n.macro_zone == c.macro_zone && n.micro_location == c.micro_location
        }),
        ({
            let d = cards::edited(e, db, id, e.now_ms, |c: Card| cards::reflagged(c, flags_state));
            history::prior_at(d.cards, id, e.now_ms) matches Some(n) && n.flags_state == flags_state
                && n.packed_definition == c.packed_definition && n.owner_id == c.owner_id
                && n.macro_zone == c.macro_zone && n.micro_location == c.micro_location
        }),
{
    let a = cards::redefined(c, packed_definition);
    let b = cards::reflagged(c, flags_state);
    history::prior_at_is_greatest(db.cards, id, e.now_ms);
    lemma_nothing_shared(e.bk.position_dirty | e.bk.data_dirty);
    rows_are_stored_as_given(e, db, a, e.now_ms, 0);
    rows_are_stored_as_given(e, db, b, e.now_ms, 0);
    laws::write_reads_back(e, db, a, e.now_ms);
    laws::write_reads_back(e, db, b, e.now_ms);
    assert(cards::after_write(e, db, a, e.now_ms) == cards::row_written(e, db, a, e.now_ms));
    assert(cards::after_write(e, db, b, e.now_ms) == cards::row_written(e, db, b, e.now_ms));
}

/// Deleting the version of a card at a time takes the rows of that card that start then,
/// and no other row.
pub proof fn deleted_versions_are_gone(db: Db, id: u32, t: u64, row: Card)
    ensures
        cards::version_deleted(db, id, t).cards.contains(row) <==> db.cards.contains(row) && !(
        row.card_id == id && row.valid_at / 0x1_0000 == t),
{
    history::filter_members(db.cards, history::not_version::<Card>(id, t));
}

/// A free soul of the caller that has discovered a blueprint and may build one more is
/// granted it.
pub proof fn free_souls_are_granted_blueprints(
    e: Env,
    db: Db,
    t: u64,
    caller: u32,
    soul: u32,
    blueprint_id: u16,
    max_active: i32,
    def: u16,
    s: Card,
    i: int,
)
    requires
        history::prior_at(db.cards, soul, t) == Some(s),
        s.flags_state & e.state.dead == 0,
        s.packed_definition / 4096 == souls::SOUL_CARD_TYPE,
        cards::hold_value(e, HoldKind::SlotHold, s.flags_bk) == 0,
        cards::hold_value(e, HoldKind::SlotShare, s.flags_bk) == 0,
        cards::hold_value(e, HoldKind::PositionHold, s.flags_bk) == 0,
        cards::player_of(e, db, soul) == Some(caller),
        1 <= blueprint_id <= 64,
        def != 0,
        souls::private_index(db.soul_privates, soul) == Some(i),
        db.soul_privates[i].blueprints_0 & (1u64 << ((blueprint_id - 1) as u64)) != 0,
        db.soul_privates[i].active_blueprints < max_active,
    ensures
        blueprints::rejection(e, db, t, caller, soul, blueprint_id, max_active, def) is None,
{
}

} // verus!
