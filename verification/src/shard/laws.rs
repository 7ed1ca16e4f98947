//! Laws of the card write path of a data shard.
use vstd::prelude::*;

use crate::cards::env;
use crate::history;
use crate::packed;
use crate::shard::cards;
use crate::shard::cards::Card;
use crate::shard::gate_api;
use crate::shard::model;
use crate::shard::model::HoldField;
use crate::shard::model::Micro;
use crate::shard::movement;
use crate::shard::movement::TilePoint;
use crate::shard::tables::Db;
use crate::shard::tables::Env;

verus! {

/// A row that only differs in its flags.
pub open spec fn same_but_flags(a: Card, b: Card) -> bool {
    a == (Card { flags: a.flags, ..b })
}

/// A placed card reads back its placement. It is a member of the stack whose root
/// the placement names, or of no stack where the placement is loose, whatever its
/// micro location then is.
pub proof fn placed_card_reads_back(m: Micro, card: Card)
    requires
        model::fits(m),
    ensures
        cards::placement(cards::placed(m, card)) == m,
        cards::root_of(cards::placed(m, card)) == match m {
            Micro::Stacked { root, branch, index } => root,
            Micro::Loose { local_q, local_r, x, y } => 0,
        },
{
    model::placement_round_trip(m, card.flags);
}

/// Carrying flags forward changes nothing but the state flags of later versions
/// of that card, and never a version marked to preserve its data.
pub proof fn carrying_is_confined(
    rows: Seq<Card>,
    id: u32,
    t: u64,
    set_bits: u32,
    clear_bits: u32,
    preserve: u8,
)
    ensures
        cards::carried(rows, id, t, set_bits, clear_bits, preserve).len() == rows.len(),
        forall|j: int|
            0 <= j < rows.len() ==> same_but_flags(
                #[trigger] cards::carried(rows, id, t, set_bits, clear_bits, preserve)[j],
                rows[j],
            ),
        forall|j: int|
            0 <= j < rows.len() && (rows[j].card_id != id || history::time(rows[j]) <= t
                || rows[j].flags_bk & preserve != 0) ==> #[trigger] cards::carried(
                rows,
                id,
                t,
                set_bits,
                clear_bits,
                preserve,
            )[j] == rows[j],
    decreases u64::MAX - t,
{
    if !(set_bits == 0 && clear_bits == 0) {
        history::next_version_is_least(rows, id, t);
        if let Some(i) = history::next_version(rows, id, t) {
            let row = rows[i];
            let at = history::time(row);
            if row.flags_bk & preserve != 0 {
                carrying_is_confined(rows, id, at, set_bits, clear_bits, preserve);
            } else {
                let set2 = set_bits & !row.flags;
                let clear2 = clear_bits & row.flags;
                if !(set2 == 0 && clear2 == 0) {
                    let next = Card { flags: (row.flags & !clear2) | set2, ..row };
                    carrying_is_confined(rows.update(i, next), id, at, set2, clear2, preserve);
                    let out = cards::carried(rows, id, t, set_bits, clear_bits, preserve);
                    let mid = rows.update(i, next);
                    assert(out == cards::carried(mid, id, at, set2, clear2, preserve));
                    assert forall|j: int| 0 <= j < rows.len() implies same_but_flags(
                        #[trigger] out[j],
                        rows[j],
                    ) by {
                        assert(same_but_flags(out[j], mid[j]));
                    }
                    assert forall|j: int|
                        0 <= j < rows.len() && (rows[j].card_id != id || history::time(rows[j]) <= t
                            || rows[j].flags_bk & preserve != 0) implies #[trigger] out[j]
                        == rows[j] by {
                        assert(mid[j] == rows[j]);
                    }
                }
            }
        }
    }
}

/// Every version of `id` after `t` up to version `j` that takes carried flags
/// still has bit `n` as it was, the opposite of `want`.
pub open spec fn inherited(
    rows: Seq<Card>,
    id: u32,
    t: u64,
    preserve: u8,
    n: u32,
    want: bool,
    j: int,
) -> bool {
    forall|k: int|
        0 <= k < rows.len() && (#[trigger] rows[k]).card_id == id && t < history::time(rows[k])
            <= history::time(rows[j]) && rows[k].flags_bk & preserve == 0 ==> env::bit(
            rows[k].flags,
            n,
        ) != want
}

/// A carried flag reaches every later version of the card that takes carried flags,
/// up to the first that changed the flag itself; from there on, and in every other
/// row, the flag stays as it was.
pub proof fn carrying_reaches_the_inheritors(
    rows: Seq<Card>,
    id: u32,
    t: u64,
    set_bits: u32,
    clear_bits: u32,
    preserve: u8,
    n: u32,
    j: int,
)
    requires
        history::distinct_versions(rows),
        set_bits & clear_bits == 0,
        n < 32,
        0 <= j < rows.len(),
    ensures
        ({
            let out = cards::carried(rows, id, t, set_bits, clear_bits, preserve)[j];
            let takes = rows[j].card_id == id && history::time(rows[j]) > t && rows[j].flags_bk
                & preserve == 0;
            env::bit(out.flags, n) == if takes && env::bit(set_bits, n) && inherited(
                rows,
                id,
                t,
                preserve,
                n,
                true,
                j,
            ) {
                true
            } else if takes && env::bit(clear_bits, n) && inherited(
                rows,
                id,
                t,
                preserve,
                n,
                false,
                j,
            ) {
                false
            } else {
                env::bit(rows[j].flags, n)
            }
        }),
    decreases u64::MAX - t,
{
    env::changed_bits(rows[j].flags, set_bits, clear_bits, n);
    carrying_is_confined(rows, id, t, set_bits, clear_bits, preserve);
    let takes = rows[j].card_id == id && history::time(rows[j]) > t && rows[j].flags_bk & preserve
        == 0;
    if !(set_bits == 0 && clear_bits == 0) && takes {
        history::next_version_is_least(rows, id, t);
        if let Some(i) = history::next_version(rows, id, t) {
            let row = rows[i];
            let at = history::time(row);
            if i != j {
                assert(rows[i].valid_at != rows[j].valid_at && at != history::time(rows[j]));
            }
            if row.flags_bk & preserve != 0 {
                carrying_reaches_the_inheritors(
                    rows,
                    id,
                    at,
                    set_bits,
                    clear_bits,
                    preserve,
                    n,
                    j,
                );
                lemma_inherited_step(rows, rows, id, t, preserve, n, true, i, j);
                lemma_inherited_step(rows, rows, id, t, preserve, n, false, i, j);
            } else {
                let set2 = set_bits & !row.flags;
                let clear2 = clear_bits & row.flags;
                env::changed_bits(row.flags, set_bits, clear_bits, n);
                let next = Card { flags: (row.flags & !clear2) | set2, ..row };
                let mid = rows.update(i, next);
                lemma_inherited_step(rows, mid, id, t, preserve, n, true, i, j);
                lemma_inherited_step(rows, mid, id, t, preserve, n, false, i, j);
                if !(set2 == 0 && clear2 == 0) {
                    assert(history::distinct_versions(mid)) by {
                        assert forall|p: int, q: int|
                            #![trigger mid[p], mid[q]]
                            0 <= p < q < mid.len() implies mid[p].valid_at != mid[q].valid_at
                            && !(mid[p].card_id == mid[q].card_id && history::time(
                            mid[p],
                        ) == history::time(mid[q])) by {
                            assert(same_but_flags(mid[p], rows[p]));
                            assert(same_but_flags(mid[q], rows[q]));
                        }
                    }
                    carrying_reaches_the_inheritors(mid, id, at, set2, clear2, preserve, n, j);
                }
            }
        }
    }
}

/// What is inherited up to version `j` is inherited by the next version `i`, and
/// from there on.
proof fn lemma_inherited_step(
    rows: Seq<Card>,
    mid: Seq<Card>,
    id: u32,
    t: u64,
    preserve: u8,
    n: u32,
    want: bool,
    i: int,
    j: int,
)
    requires
        history::distinct_versions(rows),
        history::next_version(rows, id, t) == Some(i),
        0 <= i < rows.len(),
        0 <= j < rows.len(),
        rows[i].card_id == id,
        t < history::time(rows[i]) <= history::time(rows[j]),
        mid.len() == rows.len(),
        forall|k: int| 0 <= k < rows.len() ==> same_but_flags(#[trigger] mid[k], rows[k]),
        forall|k: int| 0 <= k < rows.len() && k != i ==> #[trigger] mid[k] == rows[k],
    ensures
        inherited(rows, id, t, preserve, n, want, j) == ((rows[i].flags_bk & preserve == 0
            ==> env::bit(rows[i].flags, n) != want) && inherited(
            mid,
            id,
            history::time(rows[i]),
            preserve,
            n,
            want,
            j,
        )),
{
    history::next_version_is_least(rows, id, t);
    let at = history::time(rows[i]);
    assert(same_but_flags(mid[j], rows[j]));
    if inherited(rows, id, t, preserve, n, want, j) {
        assert forall|k: int|
            0 <= k < mid.len() && (#[trigger] mid[k]).card_id == id && at < history::time(mid[k])
                <= history::time(mid[j]) && mid[k].flags_bk & preserve == 0 implies env::bit(
            mid[k].flags,
            n,
        ) != want by {
            assert(same_but_flags(mid[k], rows[k]));
            assert(rows[k].card_id == id);
        }
    }
    if inherited(mid, id, at, preserve, n, want, j) && (rows[i].flags_bk & preserve == 0
        ==> env::bit(rows[i].flags, n) != want) {
        assert forall|k: int|
            0 <= k < rows.len() && (#[trigger] rows[k]).card_id == id && t < history::time(rows[k])
                <= history::time(rows[j]) && rows[k].flags_bk & preserve == 0 implies env::bit(
            rows[k].flags,
            n,
        ) != want by {
            assert(same_but_flags(mid[k], rows[k]));
            if k < i {
                assert(rows[k].valid_at != rows[i].valid_at);
            }
            if i < k {
                assert(rows[i].valid_at != rows[k].valid_at);
            }
            assert(mid[k].card_id == id);
        }
    }
}

proof fn lemma_carried_keeps_distinct(
    rows: Seq<Card>,
    id: u32,
    t: u64,
    set_bits: u32,
    clear_bits: u32,
    preserve: u8,
)
    requires
        history::distinct_versions(rows),
    ensures
        history::distinct_versions(cards::carried(rows, id, t, set_bits, clear_bits, preserve)),
{
    carrying_is_confined(rows, id, t, set_bits, clear_bits, preserve);
    let out = cards::carried(rows, id, t, set_bits, clear_bits, preserve);
    assert forall|i: int, j: int|
        #![trigger out[i], out[j]]
        0 <= i < j < out.len() implies out[i].valid_at != out[j].valid_at && !(out[i].card_id
        == out[j].card_id && history::time(out[i]) == history::time(out[j])) by {
        assert(same_but_flags(out[i], rows[i]));
        assert(same_but_flags(out[j], rows[j]));
    }
}

proof fn lemma_row_written(e: Env, db: Db, card: Card, t: u64)
    requires
        t < packed::TIME_RADIX,
        history::distinct_versions(db.cards),
    ensures
        history::distinct_versions(cards::row_written(e, db, card, t).cards),
        history::prior_at(cards::row_written(e, db, card, t).cards, card.card_id, t) == Some(
            cards::stamped(e, db, card, t),
        ),
{
    let prev = history::prior_at(db.cards, card.card_id, t);
    let row = cards::stamped(e, db, card, t);
    packed::valid_at_round_trip(t, db.next_sequence);
    let rows = history::stored(db.cards, row, t);
    history::store_keeps_distinct(db.cards, row, t);
    history::read_over_write(db.cards, row, t);
    if let Some(p) = prev {
        let set_bits = cards::set_by(e, row.flags, p.flags);
        let clear_bits = cards::set_by(e, p.flags, row.flags);
        lemma_carried_keeps_distinct(
            rows,
            card.card_id,
            t,
            set_bits,
            clear_bits,
            e.bk.data_preserve,
        );
        carrying_is_confined(rows, card.card_id, t, set_bits, clear_bits, e.bk.data_preserve);
        let out = cards::carried(
            rows,
            card.card_id,
            t,
            set_bits,
            clear_bits,
            e.bk.data_preserve,
        );
        history::prior_at_is_greatest(rows, card.card_id, t);
        let k = choose|k: int| 0 <= k < rows.len() && rows[k] == row;
        assert(out[k] == rows[k]);
        assert forall|i: int|
            0 <= i < out.len() && history::covers(
                #[trigger] out[i],
                card.card_id,
                t,
            ) implies history::time(out[i]) <= history::time(row) by {
            assert(same_but_flags(out[i], rows[i]));
            assert(history::covers(rows[i], card.card_id, t));
        }
        history::prior_at_unique(out, card.card_id, t, row);
    }
}

/// What a write stores is what a read at that time finds, before the followers
/// of the card are brought in step; and always where it has none.
pub proof fn write_reads_back(e: Env, db: Db, card: Card, t: u64)
    requires
        t < packed::TIME_RADIX,
        history::distinct_versions(db.cards),
    ensures
        history::prior_at(cards::row_written(e, db, card, t).cards, card.card_id, t) == Some(
            cards::stamped(e, db, card, t),
        ),
        ({
            let d = cards::row_written(e, db, card, t);
            cards::follower_ids(d.cards, d.cards, card.card_id, t).len() == 0
                ==> history::prior_at(
                cards::after_write(e, db, card, t).cards,
                card.card_id,
                t,
            ) == Some(cards::stamped(e, db, card, t))
        }),
{
    lemma_row_written(e, db, card, t);
}

/// Every card write keeps the table free of doubled versions.
pub proof fn writes_keep_versions_distinct(e: Env, db: Db, card: Card, t: u64, depth: nat)
    requires
        t < packed::TIME_RADIX,
        history::distinct_versions(db.cards),
    ensures
        history::distinct_versions(cards::written(e, db, card, t, depth).cards),
    decreases depth, 0nat,
{
    lemma_row_written(e, db, card, t);
    let d = cards::row_written(e, db, card, t);
    if depth > 0 {
        let prev = history::prior_at(db.cards, card.card_id, t);
        let died = cards::is_dead(e, card) && match prev {
            Some(p) => !cards::is_dead(e, p),
            None => true,
        };
        lemma_followers_keep_distinct(
            e,
            d,
            cards::follower_ids(d.cards, d.cards, card.card_id, t),
            died,
            card.macro_zone,
            t,
            (depth - 1) as nat,
        );
    }
}

proof fn lemma_followers_keep_distinct(
    e: Env,
    db: Db,
    ids: Seq<u32>,
    host_died: bool,
    macro_zone: u64,
    t: u64,
    depth: nat,
)
    requires
        t < packed::TIME_RADIX,
        history::distinct_versions(db.cards),
    ensures
        history::distinct_versions(
            cards::followers_written(e, db, ids, host_died, macro_zone, t, depth).cards,
        ),
    decreases depth, ids.len() + 1,
{
    if ids.len() > 0 {
        lemma_followers_keep_distinct(
            e,
            db,
            ids.drop_last(),
            host_died,
            macro_zone,
            t,
            depth,
        );
        let d = cards::followers_written(
            e,
            db,
            ids.drop_last(),
            host_died,
            macro_zone,
            t,
            depth,
        );
        if let Some(c) = history::prior_at(d.cards, ids.last(), t) {
            writes_keep_versions_distinct(
                e,
                d,
                cards::follower_edit(host_died, macro_zone, c),
                t,
                depth,
            );
        }
    }
}

/// A write under a free key is invisible to other cards, and to reads of its own
/// card at an earlier time.
pub proof fn write_is_isolated(e: Env, db: Db, card: Card, t: u64, id: u32, at: u64)
    requires
        t < packed::TIME_RADIX,
        history::distinct_versions(db.cards),
        history::key_free(db.cards, packed::valid_at_key(t, db.next_sequence)),
        id != card.card_id || at < t,
    ensures
        history::prior_at(cards::row_written(e, db, card, t).cards, id, at) == history::prior_at(
            db.cards,
            id,
            at,
        ),
{
    let prev = history::prior_at(db.cards, card.card_id, t);
    let row = cards::stamped(e, db, card, t);
    packed::valid_at_round_trip(t, db.next_sequence);
    let rows = history::stored(db.cards, row, t);
    history::write_leaves_the_rest(db.cards, row, t, id, at);
    if let Some(p) = prev {
        let set_bits = cards::set_by(e, row.flags, p.flags);
        let clear_bits = cards::set_by(e, p.flags, row.flags);
        carrying_is_confined(rows, card.card_id, t, set_bits, clear_bits, e.bk.data_preserve);
        let out = cards::carried(
            rows,
            card.card_id,
            t,
            set_bits,
            clear_bits,
            e.bk.data_preserve,
        );
        lemma_same_reads(rows, out, id, at);
    }
}

/// Tables that agree on every row of `id` up to `at` answer alike.
proof fn lemma_same_reads(a: Seq<Card>, b: Seq<Card>, id: u32, at: u64)
    requires
        a.len() == b.len(),
        forall|j: int|
            0 <= j < a.len() ==> a[j].card_id == (#[trigger] b[j]).card_id && a[j].valid_at
                == b[j].valid_at,
        forall|j: int|
            0 <= j < a.len() && history::covers(a[j], id, at) ==> #[trigger] b[j] == a[j],
    ensures
        history::prior_at(a, id, at) == history::prior_at(b, id, at),
    decreases a.len(),
{
    if a.len() > 0 {
        assert(b[b.len() - 1] == b.last());
        let a2 = a.drop_last();
        let b2 = b.drop_last();
        assert forall|j: int| 0 <= j < a2.len() implies a2[j].card_id == (#[trigger] b2[j]).card_id
            && a2[j].valid_at == b2[j].valid_at by {
            assert(b2[j] == b[j]);
        }
        assert forall|j: int|
            0 <= j < a2.len() && history::covers(a2[j], id, at) implies #[trigger] b2[j]
            == a2[j] by {
            assert(b2[j] == b[j]);
        }
        lemma_same_reads(a2, b2, id, at);
    }
}

/// A hold change reaches every later version of the card, one step each, and
/// leaves every other row as it was.
pub proof fn hold_propagation_is_exact(
    e: Env,
    db: Db,
    card_id: u32,
    t: u64,
    field: HoldField,
    up: bool,
    j: int,
)
    requires
        0 <= j < db.cards.len(),
    ensures
        cards::hold_propagated(e, db, card_id, t, field, up).cards[j] == if db.cards[j].card_id
            == card_id && history::time(db.cards[j]) > t {
            cards::hold_step(e, field, up, db.cards[j])
        } else {
            db.cards[j]
        },
{
}

/// Taking a reference and giving it back restores every later version whose
/// count was below the maximum.
pub proof fn hold_propagation_inverse(
    e: Env,
    db: Db,
    card_id: u32,
    t: u64,
    field: HoldField,
)
    requires
        e.wf(),
        forall|j: int|
            0 <= j < db.cards.len() && (#[trigger] db.cards[j]).card_id == card_id
                ==> model::hold_value(e.layout, db.cards[j].flags, field) < e.layout.spec_field(
                field,
            ).max,
    ensures
        cards::hold_propagated(
            e,
            cards::hold_propagated(e, db, card_id, t, field, true),
            card_id,
            t,
            field,
            false,
        ) == db,
{
    reveal(Env::laid_out);
    let f = e.layout.spec_field(field);
    let width = choose|width: u32| env::well_shaped(f, width);
    let up = cards::hold_propagated(e, db, card_id, t, field, true);
    let back = cards::hold_propagated(e, up, card_id, t, field, false);
    assert forall|j: int| 0 <= j < db.cards.len() implies #[trigger] back.cards[j]
        == db.cards[j] by {
        if db.cards[j].card_id == card_id && history::time(db.cards[j]) > t {
            env::acquire_release_inverse(db.cards[j].flags, f, width);
        }
    }
    assert(back.cards =~= db.cards);
}

/// A write at `t`, with every follower it moves, changes nothing that was in
/// force before `t`.
pub proof fn writes_do_not_reach_back(
    e: Env,
    db: Db,
    card: Card,
    t: u64,
    depth: nat,
    id: u32,
    at: u64,
)
    requires
        t < packed::TIME_RADIX,
        at < t,
    ensures
        history::prior_at(cards::written(e, db, card, t, depth).cards, id, at) == history::prior_at(
            db.cards,
            id,
            at,
        ),
    decreases depth, 0nat,
{
    let prev = history::prior_at(db.cards, card.card_id, t);
    let row = cards::stamped(e, db, card, t);
    packed::valid_at_round_trip(t, db.next_sequence);
    let rows = history::stored(db.cards, row, t);
    history::write_does_not_reach_back(db.cards, row, t, id, at);
    let d = cards::row_written(e, db, card, t);
    if let Some(p) = prev {
        let set_bits = cards::set_by(e, row.flags, p.flags);
        let clear_bits = cards::set_by(e, p.flags, row.flags);
        carrying_is_confined(rows, card.card_id, t, set_bits, clear_bits, e.bk.data_preserve);
        let out = cards::carried(
            rows,
            card.card_id,
            t,
            set_bits,
            clear_bits,
            e.bk.data_preserve,
        );
        assert forall|j: int| 0 <= j < rows.len() implies rows[j].card_id == (
        #[trigger] out[j]).card_id && rows[j].valid_at == out[j].valid_at by {
            assert(same_but_flags(out[j], rows[j]));
        }
        lemma_same_reads(rows, out, id, at);
    }
    if depth > 0 {
        let died = cards::is_dead(e, card) && match prev {
            Some(p) => !cards::is_dead(e, p),
            None => true,
        };
        lemma_followers_do_not_reach_back(
            e,
            d,
            cards::follower_ids(d.cards, d.cards, card.card_id, t),
            died,
            card.macro_zone,
            t,
            (depth - 1) as nat,
            id,
            at,
        );
    }
}

proof fn lemma_followers_do_not_reach_back(
    e: Env,
    db: Db,
    ids: Seq<u32>,
    host_died: bool,
    macro_zone: u64,
    t: u64,
    depth: nat,
    id: u32,
    at: u64,
)
    requires
        t < packed::TIME_RADIX,
        at < t,
    ensures
        history::prior_at(
            cards::followers_written(e, db, ids, host_died, macro_zone, t, depth).cards,
            id,
            at,
        ) == history::prior_at(db.cards, id, at),
    decreases depth, ids.len() + 1,
{
    if ids.len() > 0 {
        let init = ids.drop_last();
        lemma_followers_do_not_reach_back(
            e,
            db,
            init,
            host_died,
            macro_zone,
            t,
            depth,
            id,
            at,
        );
        let d = cards::followers_written(e, db, init, host_died, macro_zone, t, depth);
        if let Some(c) = history::prior_at(d.cards, ids.last(), t) {
            writes_do_not_reach_back(
                e,
                d,
                cards::follower_edit(host_died, macro_zone, c),
                t,
                depth,
                id,
                at,
            );
        }
    }
}

/// A moving soul, and everything else, stays where it is until the arrival.
pub proof fn souls_stay_until_arrival(
    e: Env,
    db: Db,
    client_time_ms: u64,
    caller: u32,
    soul_id: u32,
    soul_def: u16,
    from: (i32, i32),
    dest: TilePoint,
    depart_ms: u64,
    arrival_ms: u64,
    id: u32,
    at: u64,
)
    requires
        arrival_ms < packed::TIME_RADIX,
        at < arrival_ms,
    ensures
        history::prior_at(
            movement::soul_moved(
                e,
                db,
                client_time_ms,
                caller,
                soul_id,
                soul_def,
                from,
                dest,
                depart_ms,
                arrival_ms,
            ).0.cards,
            id,
            at,
        ) == history::prior_at(db.cards, id, at),
{
    if let Some(c) = history::prior_at(db.cards, soul_id, arrival_ms) {
        writes_do_not_reach_back(
            e,
            db,
            movement::arrived(dest)(c),
            arrival_ms,
            cards::cascade_depth(db),
            id,
            at,
        );
    }
}

proof fn lemma_marks(word: u8, pd: u8, dd: u8)
    by (bit_vector)
    requires
        pd != 0,
        dd != 0,
        pd & dd == 0,
    ensures
        (word & !(pd | dd)) & pd == 0,
        (word & !(pd | dd)) & dd == 0,
        ((word & !(pd | dd)) | pd) & pd == pd,
        ((word & !(pd | dd)) | pd) & dd == 0,
        ((word & !(pd | dd)) | dd) & dd == dd,
        ((word & !(pd | dd)) | dd) & pd == 0,
        (((word & !(pd | dd)) | pd) | dd) & pd == pd,
        (((word & !(pd | dd)) | pd) | dd) & dd == dd,
        (word & !(pd | dd)) & !(pd | dd) == word & !(pd | dd),
        ((word & !(pd | dd)) | pd) & !(pd | dd) == word & !(pd | dd),
        ((word & !(pd | dd)) | dd) & !(pd | dd) == word & !(pd | dd),
        (((word & !(pd | dd)) | pd) | dd) & !(pd | dd) == word & !(pd | dd),
{
}

/// Two rows stand at the same place.
pub open spec fn same_position(a: Card, b: Card) -> bool {
    &&& a.macro_zone == b.macro_zone
    &&& a.micro_location == b.micro_location
    &&& a.flags % 256 == b.flags % 256
}

/// Two rows agree on owner, definition and state.
pub open spec fn same_data(e: Env, a: Card, b: Card) -> bool {
    let state = model::state_bits(e.state);
    &&& a.owner_id == b.owner_id
    &&& a.packed_definition == b.packed_definition
    &&& a.flags & state == b.flags & state
}

/// A written row is marked exactly where it differs from the row that was in force:
/// as moved where it stands elsewhere, as changed where its data differ, and as both
/// where it is the first. The marks change nothing else of it.
pub proof fn rows_are_marked_where_they_differ(e: Env, db: Db, card: Card, t: u64)
    requires
        e.wf(),
    ensures
        ({
            let prev = history::prior_at(db.cards, card.card_id, t);
            let row = cards::stamped(e, db, card, t);
            let marks = e.bk.position_dirty | e.bk.data_dirty;
            &&& row.flags_bk & e.bk.position_dirty != 0 <==> !(prev matches Some(p)
                && same_position(row, p))
            &&& row.flags_bk & e.bk.data_dirty != 0 <==> !(prev matches Some(p) && same_data(
                e,
                row,
                p,
            ))
            &&& row.flags_bk & !marks == card.flags_bk & !marks
            &&& row.flags == card.flags
        }),
{
    reveal(Env::laid_out);
    lemma_marks(card.flags_bk, e.bk.position_dirty, e.bk.data_dirty);
}

proof fn lemma_apart_from_state(mask: u32, state: u32)
    by (bit_vector)
    requires
        mask & (state | 0xFF) == 0,
    ensures
        state & mask == 0,
{
}

/// Who takes an exclusive hold on a card shuts others out: from then on an action
/// that wants it exclusively, or shared, is refused at that time.
pub proof fn claims_exclude(e: Env, db: Db, card_id: u32, t: u64, mask: u8)
    requires
        t < packed::TIME_RADIX,
        history::distinct_versions(db.cards),
        history::prior_at(db.cards, card_id, t) is Some,
        e.wf(),
        gate_api::wants(mask, 1) || gate_api::wants(mask, 2),
    ensures
        gate_api::conflict(
            e,
            cards::held(e, db, card_id, t, HoldField::SlotClaim, true),
            card_id,
            mask,
            t,
        ) is Some,
{
    let field = HoldField::SlotClaim;
    let f = e.layout.spec_field(field);
    let c = history::prior_at(db.cards, card_id, t)->0;
    history::prior_at_is_greatest(db.cards, card_id, t);
    let n = cards::hold_step(e, field, true, c);
    lemma_step_counts(e, field, true, c);
    assert(f.max >= 1) by {
        reveal(Env::laid_out);
        let width = choose|width: u32| env::well_shaped(f, width);
        assert(1u32 << width >= 2) by (bit_vector)
            requires
                0 < width < 32,
        ;
    }
    let d = cards::edited(e, db, card_id, t, cards::hold_stepper(e, field, true));
    assert(d == cards::after_write(e, db, n, t));
    assert(d == cards::row_written(e, db, n, t));
    lemma_row_written(e, db, n, t);
    history::later_edits_are_unseen(
        d.cards,
        card_id,
        t,
        cards::hold_stepper(e, field, true),
        card_id,
        t,
    );
}

// ---- holds over time -----------------------------------------------
/// The references of a hold family on a card in force at `at`.
pub open spec fn count_at(e: Env, db: Db, card_id: u32, field: HoldField, at: u64) -> u32 {
    match history::prior_at(db.cards, card_id, at) {
        Some(c) => model::hold_value(e.layout, c.flags, field),
        None => 0,
    }
}

/// A count after one step of a hold family.
pub open spec fn stepped(count: u32, max: u32, up: bool) -> u32 {
    if up {
        if count < max {
            (count + 1) as u32
        } else {
            max
        }
    } else if count > 0 {
        (count - 1) as u32
    } else {
        0
    }
}

/// A step of a field that lies apart from the state bits counts, and changes none
/// of them.
proof fn lemma_step_counts(e: Env, field: HoldField, up: bool, c: Card)
    requires
        e.wf(),
    ensures
        model::hold_value(e.layout, cards::hold_step(e, field, up, c).flags, field) == stepped(
            model::hold_value(e.layout, c.flags, field),
            e.layout.spec_field(field).max,
            up,
        ),
        cards::set_by(e, cards::hold_step(e, field, up, c).flags, c.flags) == 0,
        cards::set_by(e, c.flags, cards::hold_step(e, field, up, c).flags) == 0,
        cards::is_dead(e, cards::hold_step(e, field, up, c)) == cards::is_dead(e, c),
{
    let f = e.layout.spec_field(field);
    let v = env::field_value(c.flags, f);
    let sm = model::state_bits(e.state);
    let n = cards::hold_step(e, field, up, c);
    reveal(Env::laid_out);
    let width = choose|width: u32| env::well_shaped(f, width);
    env::field_read_over_write(c.flags, f, width, 0);
    env::field_read_over_write(c.flags, f, width, stepped(v, f.max, up));
    lemma_apart_from_state(f.mask, sm);
    env::write_is_confined(c.flags, f, stepped(v, f.max, up), sm);
    assert(n.flags & sm == c.flags & sm);
    lemma_same_state(
        n.flags,
        c.flags,
        e.state.dead,
        e.state.pos_need,
        e.state.pos_want,
        e.state.player_owned,
        e.state.surface_locked,
        e.state.zone_born,
    );
}

proof fn lemma_same_state(
    a: u32,
    b: u32,
    dead: u32,
    pos_need: u32,
    pos_want: u32,
    player_owned: u32,
    surface_locked: u32,
    zone_born: u32,
)
    by (bit_vector)
    requires
        a & (dead | pos_need | pos_want | player_owned | surface_locked | zone_born) == b & (dead
            | pos_need | pos_want | player_owned | surface_locked | zone_born),
    ensures
        a & dead == b & dead,
        (a & (dead | pos_need | pos_want | player_owned | surface_locked | zone_born)) & !(b & (dead
            | pos_need | pos_want | player_owned | surface_locked | zone_born)) == 0,
        (b & (dead | pos_need | pos_want | player_owned | surface_locked | zone_born)) & !(a & (dead
            | pos_need | pos_want | player_owned | surface_locked | zone_born)) == 0,
{
}

/// A reference taken or given back at `t` counts from `t` on, at every time, and
/// not before.
pub proof fn holds_count_from_then_on(
    e: Env,
    db: Db,
    card_id: u32,
    t: u64,
    field: HoldField,
    up: bool,
    at: u64,
)
    requires
        t < packed::TIME_RADIX,
        history::distinct_versions(db.cards),
        history::key_free(db.cards, packed::valid_at_key(t, db.next_sequence)),
        history::prior_at(db.cards, card_id, t) is Some,
        e.wf(),
    ensures
        count_at(e, cards::held(e, db, card_id, t, field, up), card_id, field, at) == if at < t {
            count_at(e, db, card_id, field, at)
        } else {
            stepped(
                count_at(e, db, card_id, field, at),
                e.layout.spec_field(field).max,
                up,
            )
        },
        history::prior_at(cards::held(e, db, card_id, t, field, up).cards, card_id, at) is Some
            == history::prior_at(db.cards, card_id, at) is Some,
        history::distinct_versions(cards::held(e, db, card_id, t, field, up).cards),
{
    let c = history::prior_at(db.cards, card_id, t)->0;
    history::prior_at_is_greatest(db.cards, card_id, t);
    history::prior_at_is_greatest(db.cards, card_id, at);
    let n = cards::hold_step(e, field, up, c);
    let row = cards::stamped(e, db, n, t);
    let f = cards::hold_stepper(e, field, up);
    packed::valid_at_round_trip(t, db.next_sequence);
    lemma_step_counts(e, field, up, c);
    let d = cards::edited(e, db, card_id, t, f);
    assert(d == cards::after_write(e, db, n, t));
    assert(d == cards::row_written(e, db, n, t));
    assert(d.cards == history::stored(db.cards, row, t));
    history::change_from_a_time(db.cards, row, t, f, card_id, at);
    if at >= t {
        let p = history::prior_at(db.cards, card_id, at)->0;
        lemma_step_counts(e, field, up, p);
        assert(history::covers(c, card_id, at));
        if history::time(p) <= t {
            assert(history::covers(p, card_id, t));
            history::prior_at_unique(db.cards, card_id, t, p);
        }
    }
}

/// A hold at `t` takes no key of a later time.
proof fn lemma_hold_keys(
    e: Env,
    db: Db,
    card_id: u32,
    t: u64,
    field: HoldField,
    up: bool,
    later: u64,
    seq: u16,
)
    requires
        t < later < packed::TIME_RADIX,
        history::key_free(db.cards, packed::valid_at_key(later, seq)),
        history::prior_at(db.cards, card_id, t) is Some,
        e.wf(),
    ensures
        history::key_free(
            cards::held(e, db, card_id, t, field, up).cards,
            packed::valid_at_key(later, seq),
        ),
{
    let c = history::prior_at(db.cards, card_id, t)->0;
    let n = cards::hold_step(e, field, up, c);
    let row = cards::stamped(e, db, n, t);
    let f = cards::hold_stepper(e, field, up);
    history::prior_at_is_greatest(db.cards, card_id, t);
    lemma_step_counts(e, field, up, c);
    let d = cards::edited(e, db, card_id, t, f);
    assert(d == cards::after_write(e, db, n, t));
    assert(d == cards::row_written(e, db, n, t));
    packed::valid_at_round_trip(t, db.next_sequence);
    packed::valid_at_round_trip(later, seq);
    history::store_keeps_key_free(db.cards, row, t, packed::valid_at_key(later, seq));
    let out = cards::held(e, db, card_id, t, field, up).cards;
    assert forall|i: int| 0 <= i < out.len() implies (#[trigger] out[i]).valid_at
        != packed::valid_at_key(later, seq) by {
        assert(d.cards[i].valid_at == out[i].valid_at);
    }
}

/// What an action takes at its start and gives back at its completion counts in
/// between, and outside that span every count is what it was.
pub proof fn holds_last_until_completion(
    e: Env,
    db: Db,
    card_id: u32,
    field: HoldField,
    now_ms: u64,
    completion_ms: u64,
    at: u64,
)
    requires
        now_ms < completion_ms < packed::TIME_RADIX,
        history::distinct_versions(db.cards),
        history::key_free(db.cards, packed::valid_at_key(now_ms, db.next_sequence)),
        history::key_free(
            db.cards,
            packed::valid_at_key(
                completion_ms,
                cards::held(e, db, card_id, now_ms, field, true).next_sequence,
            ),
        ),
        history::prior_at(db.cards, card_id, now_ms) is Some,
        e.wf(),
        count_at(e, db, card_id, field, at) < e.layout.spec_field(field).max,
    ensures
        count_at(
            e,
            cards::held(
                e,
                cards::held(e, db, card_id, now_ms, field, true),
                card_id,
                completion_ms,
                field,
                false,
            ),
            card_id,
            field,
            at,
        ) == if now_ms <= at < completion_ms {
            count_at(e, db, card_id, field, at) + 1
        } else {
            count_at(e, db, card_id, field, at) as int
        },
{
    let mid = cards::held(e, db, card_id, now_ms, field, true);
    holds_count_from_then_on(e, db, card_id, now_ms, field, true, at);
    holds_count_from_then_on(e, db, card_id, now_ms, field, true, completion_ms);
    let c = history::prior_at(db.cards, card_id, now_ms)->0;
    history::prior_at_is_greatest(db.cards, card_id, now_ms);
    history::prior_at_is_greatest(db.cards, card_id, completion_ms);
    assert(history::covers(c, card_id, completion_ms));
    lemma_hold_keys(
        e,
        db,
        card_id,
        now_ms,
        field,
        true,
        completion_ms,
        mid.next_sequence,
    );
    holds_count_from_then_on(e, mid, card_id, completion_ms, field, false, at);
}

/// The tables that card writes never reach.
pub open spec fn same_around_cards(a: Db, b: Db) -> bool {
    &&& a.pending_actions == b.pending_actions
    &&& a.zones == b.zones
    &&& a.regions == b.regions
    &&& a.card_shards == b.card_shards
    &&& a.op_log == b.op_log
    &&& a.next_op_id == b.next_op_id
}

/// Writing a card, with every follower it moves, reaches no zone, region, pending
/// action or recorded operation.
pub proof fn card_writes_stay_with_cards(e: Env, db: Db, card: Card, t: u64, depth: nat)
    ensures
        same_around_cards(cards::written(e, db, card, t, depth), db),
    decreases depth, 0nat,
{
    let d = cards::row_written(e, db, card, t);
    if depth > 0 {
        let prev = history::prior_at(db.cards, card.card_id, t);
        let died = cards::is_dead(e, card) && match prev {
            Some(p) => !cards::is_dead(e, p),
            None => true,
        };
        lemma_followers_stay_with_cards(
            e,
            d,
            cards::follower_ids(d.cards, d.cards, card.card_id, t),
            died,
            card.macro_zone,
            t,
            (depth - 1) as nat,
        );
    }
}

proof fn lemma_followers_stay_with_cards(
    e: Env,
    db: Db,
    ids: Seq<u32>,
    host_died: bool,
    macro_zone: u64,
    t: u64,
    depth: nat,
)
    ensures
        same_around_cards(
            cards::followers_written(e, db, ids, host_died, macro_zone, t, depth),
            db,
        ),
    decreases depth, ids.len() + 1,
{
    if ids.len() > 0 {
        let init = ids.drop_last();
        lemma_followers_stay_with_cards(e, db, init, host_died, macro_zone, t, depth);
        let d = cards::followers_written(e, db, init, host_died, macro_zone, t, depth);
        if let Some(c) = history::prior_at(d.cards, ids.last(), t) {
            card_writes_stay_with_cards(
                e,
                d,
                cards::follower_edit(host_died, macro_zone, c),
                t,
                depth,
            );
        }
    }
}

} // verus!
