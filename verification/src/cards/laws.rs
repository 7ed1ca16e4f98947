//! Laws of the card write path.
use vstd::prelude::*;

use crate::cards::cards;
use crate::cards::cards::Card;
use crate::cards::env;
use crate::cards::env::Env;
use crate::cards::env::HoldKind;
use crate::cards::gate_api;
use crate::cards::micro;
use crate::cards::micro::Micro;
use crate::history;
use crate::packed;
use crate::players::souls;
use crate::tables::Db;

verus! {

/// A row that only differs in its state flags.
pub open spec fn same_but_state(a: Card, b: Card) -> bool {
    a == (Card { flags_state: a.flags_state, ..b })
}

/// A placed card is a member of the stack whose root the placement names, or of no
/// stack where the placement is loose, whatever its micro location then is. Placing
/// it leaves its hold counts alone.
pub proof fn placed_card_has_its_root(e: Env, m: Micro, card: Card, kind: HoldKind)
    requires
        e.wf(),
    ensures
        cards::root_of(e, cards::placed(e, m, card)) == cards::named_root(m),
        cards::hold_value(e, kind, cards::placed(e, m, card).flags_bk) == cards::hold_value(
            e,
            kind,
            card.flags_bk,
        ),
{
    reveal(Env::laid_out);
    let mask = e.bk.spec_count_field(kind).mask;
    micro::placement_marks_members(m, card.flags_bk, e.bk, mask);
}

/// A placed card reads back its placement, where the placement fits its fields.
pub proof fn placed_card_reads_back(e: Env, m: Micro, card: Card)
    requires
        e.wf(),
        micro::fits(m, e.bk),
    ensures
        cards::placement(e, cards::placed(e, m, card)) == m,
{
    reveal(Env::laid_out);
    micro::placement_round_trip(m, card.flags_bk, e.bk);
}

/// Following a card write never touches the cards table.
pub proof fn following_leaves_cards(e: Env, db: Db, prev: Option<Card>, card: Card, t: u64)
    ensures
        souls::card_write_followed(e, db, prev, card, t).cards == db.cards,
        souls::card_write_followed(e, db, prev, card, t).card_id_counter == db.card_id_counter,
{
}

/// Carrying flags forward changes nothing but the state flags of later versions
/// of that card, and never a version marked to preserve its data.
pub proof fn carrying_is_confined(
    rows: Seq<Card>,
    id: u32,
    t: u64,
    set_bits: u32,
    clear_bits: u32,
    preserve: u32,
)
    ensures
        cards::carried(rows, id, t, set_bits, clear_bits, preserve).len() == rows.len(),
        forall|j: int|
            0 <= j < rows.len() ==> same_but_state(
                #[trigger] cards::carried(rows, id, t, set_bits, clear_bits, preserve)[j],
                rows[j],
            ),
        forall|j: int|
            0 <= j < rows.len() && (rows[j].card_id != id || history::time(rows[j]) <= t
                || rows[j].flags_bk & preserve != 0) ==> #[trigger] cards::carried(
                rows,
                id,
                t,
                set_bits,
                clear_bits,
                preserve,
            )[j] == rows[j],
    decreases u64::MAX - t,
{
    if !(set_bits == 0 && clear_bits == 0) {
        history::next_version_is_least(rows, id, t);
        if let Some(i) = history::next_version(rows, id, t) {
            let row = rows[i];
            let at = history::time(row);
            if row.flags_bk & preserve != 0 {
                carrying_is_confined(rows, id, at, set_bits, clear_bits, preserve);
            } else {
                let set2 = set_bits & !row.flags_state;
                let clear2 = clear_bits & row.flags_state;
                if !(set2 == 0 && clear2 == 0) {
                    let next = Card { flags_state: (row.flags_state & !clear2) | set2, ..row };
                    carrying_is_confined(rows.update(i, next), id, at, set2, clear2, preserve);
                    let out = cards::carried(rows, id, t, set_bits, clear_bits, preserve);
                    let mid = rows.update(i, next);
                    assert(out == cards::carried(mid, id, at, set2, clear2, preserve));
                    assert forall|j: int| 0 <= j < rows.len() implies same_but_state(
                        #[trigger] out[j],
                        rows[j],
                    ) by {
                        assert(same_but_state(out[j], mid[j]));
                    }
                    assert forall|j: int|
                        0 <= j < rows.len() && (rows[j].card_id != id || history::time(rows[j]) <= t
                            || rows[j].flags_bk & preserve != 0) implies #[trigger] out[j]
                        == rows[j] by {
                        assert(mid[j] == rows[j]);
                    }
                }
            }
        }
    }
}

/// Every version of `id` after `t` up to version `j` that takes carried flags
/// still has bit `n` as it was, the opposite of `want`.
pub open spec fn inherited(
    rows: Seq<Card>,
    id: u32,
    t: u64,
    preserve: u32,
    n: u32,
    want: bool,
    j: int,
) -> bool {
    forall|k: int|
        0 <= k < rows.len() && (#[trigger] rows[k]).card_id == id && t < history::time(rows[k])
            <= history::time(rows[j]) && rows[k].flags_bk & preserve == 0 ==> env::bit(
            rows[k].flags_state,
            n,
        ) != want
}

/// A carried flag reaches every later version of the card that takes carried flags,
/// up to the first that changed the flag itself; from there on, and in every other
/// row, the flag stays as it was.
pub proof fn carrying_reaches_the_inheritors(
    rows: Seq<Card>,
    id: u32,
    t: u64,
    set_bits: u32,
    clear_bits: u32,
    preserve: u32,
    n: u32,
    j: int,
)
    requires
        history::distinct_versions(rows),
        set_bits & clear_bits == 0,
        n < 32,
        0 <= j < rows.len(),
    ensures
        ({
            let out = cards::carried(rows, id, t, set_bits, clear_bits, preserve)[j];
            let takes = rows[j].card_id == id && history::time(rows[j]) > t && rows[j].flags_bk
                & preserve == 0;
            env::bit(out.flags_state, n) == if takes && env::bit(set_bits, n) && inherited(
                rows,
                id,
                t,
                preserve,
                n,
                true,
                j,
            ) {
                true
            } else if takes && env::bit(clear_bits, n) && inherited(
                rows,
                id,
                t,
                preserve,
                n,
                false,
                j,
            ) {
                false
            } else {
                env::bit(rows[j].flags_state, n)
            }
        }),
    decreases u64::MAX - t,
{
    env::changed_bits(rows[j].flags_state, set_bits, clear_bits, n);
    carrying_is_confined(rows, id, t, set_bits, clear_bits, preserve);
    let takes = rows[j].card_id == id && history::time(rows[j]) > t && rows[j].flags_bk & preserve
        == 0;
    if !(set_bits == 0 && clear_bits == 0) && takes {
        history::next_version_is_least(rows, id, t);
        if let Some(i) = history::next_version(rows, id, t) {
            let row = rows[i];
            let at = history::time(row);
            if i != j {
                assert(rows[i].valid_at != rows[j].valid_at && at != history::time(rows[j]));
            }
            if row.flags_bk & preserve != 0 {
                carrying_reaches_the_inheritors(
                    rows,
                    id,
                    at,
                    set_bits,
                    clear_bits,
                    preserve,
                    n,
                    j,
                );
                lemma_inherited_step(rows, rows, id, t, preserve, n, true, i, j);
                lemma_inherited_step(rows, rows, id, t, preserve, n, false, i, j);
            } else {
                let set2 = set_bits & !row.flags_state;
                let clear2 = clear_bits & row.flags_state;
                env::changed_bits(row.flags_state, set_bits, clear_bits, n);
                let next = Card { flags_state: (row.flags_state & !clear2) | set2, ..row };
                let mid = rows.update(i, next);
                lemma_inherited_step(rows, mid, id, t, preserve, n, true, i, j);
                lemma_inherited_step(rows, mid, id, t, preserve, n, false, i, j);
                if !(set2 == 0 && clear2 == 0) {
                    assert(history::distinct_versions(mid)) by {
                        assert forall|p: int, q: int|
                            #![trigger mid[p], mid[q]]
                            0 <= p < q < mid.len() implies mid[p].valid_at != mid[q].valid_at
                            && !(mid[p].card_id == mid[q].card_id && history::time(
                            mid[p],
                        ) == history::time(mid[q])) by {
                            assert(same_but_state(mid[p], rows[p]));
                            assert(same_but_state(mid[q], rows[q]));
                        }
                    }
                    carrying_reaches_the_inheritors(mid, id, at, set2, clear2, preserve, n, j);
                }
            }
        }
    }
}

/// What is inherited up to version `j` is inherited by the next version `i`, and
/// from there on.
proof fn lemma_inherited_step(
    rows: Seq<Card>,
    mid: Seq<Card>,
    id: u32,
    t: u64,
    preserve: u32,
    n: u32,
    want: bool,
    i: int,
    j: int,
)
    requires
        history::distinct_versions(rows),
        history::next_version(rows, id, t) == Some(i),
        0 <= i < rows.len(),
        0 <= j < rows.len(),
        rows[i].card_id == id,
        t < history::time(rows[i]) <= history::time(rows[j]),
        mid.len() == rows.len(),
        forall|k: int| 0 <= k < rows.len() ==> same_but_state(#[trigger] mid[k], rows[k]),
        forall|k: int| 0 <= k < rows.len() && k != i ==> #[trigger] mid[k] == rows[k],
    ensures
        inherited(rows, id, t, preserve, n, want, j) == ((rows[i].flags_bk & preserve == 0
            ==> env::bit(rows[i].flags_state, n) != want) && inherited(
            mid,
            id,
            history::time(rows[i]),
            preserve,
            n,
            want,
            j,
        )),
{
    history::next_version_is_least(rows, id, t);
    let at = history::time(rows[i]);
    assert(same_but_state(mid[j], rows[j]));
    if inherited(rows, id, t, preserve, n, want, j) {
        assert forall|k: int|
            0 <= k < mid.len() && (#[trigger] mid[k]).card_id == id && at < history::time(mid[k])
                <= history::time(mid[j]) && mid[k].flags_bk & preserve == 0 implies env::bit(
            mid[k].flags_state,
            n,
        ) != want by {
            assert(same_but_state(mid[k], rows[k]));
            assert(rows[k].card_id == id);
        }
    }
    if inherited(mid, id, at, preserve, n, want, j) && (rows[i].flags_bk & preserve == 0
        ==> env::bit(rows[i].flags_state, n) != want) {
        assert forall|k: int|
            0 <= k < rows.len() && (#[trigger] rows[k]).card_id == id && t < history::time(rows[k])
                <= history::time(rows[j]) && rows[k].flags_bk & preserve == 0 implies env::bit(
            rows[k].flags_state,
            n,
        ) != want by {
            assert(same_but_state(mid[k], rows[k]));
            if k < i {
                assert(rows[k].valid_at != rows[i].valid_at);
            }
            if i < k {
                assert(rows[i].valid_at != rows[k].valid_at);
            }
            assert(mid[k].card_id == id);
        }
    }
}

proof fn lemma_carried_keeps_distinct(
    rows: Seq<Card>,
    id: u32,
    t: u64,
    set_bits: u32,
    clear_bits: u32,
    preserve: u32,
)
    requires
        history::distinct_versions(rows),
    ensures
        history::distinct_versions(cards::carried(rows, id, t, set_bits, clear_bits, preserve)),
{
    carrying_is_confined(rows, id, t, set_bits, clear_bits, preserve);
    let out = cards::carried(rows, id, t, set_bits, clear_bits, preserve);
    assert forall|i: int, j: int|
        #![trigger out[i], out[j]]
        0 <= i < j < out.len() implies out[i].valid_at != out[j].valid_at && !(out[i].card_id
        == out[j].card_id && history::time(out[i]) == history::time(out[j])) by {
        assert(same_but_state(out[i], rows[i]));
        assert(same_but_state(out[j], rows[j]));
    }
}

proof fn lemma_row_written(e: Env, db: Db, card: Card, t: u64)
    requires
        t < packed::TIME_RADIX,
        history::distinct_versions(db.cards),
    ensures
        history::distinct_versions(cards::row_written(e, db, card, t).cards),
        history::prior_at(cards::row_written(e, db, card, t).cards, card.card_id, t) == Some(
            cards::stamped(e, db, card, t),
        ),
{
    let prev = history::prior_at(db.cards, card.card_id, t);
    let row = cards::stamped(e, db, card, t);
    packed::valid_at_round_trip(t, db.next_sequence);
    let rows = history::stored(db.cards, row, t);
    history::store_keeps_distinct(db.cards, row, t);
    history::read_over_write(db.cards, row, t);
    if let Some(p) = prev {
        let set_bits = row.flags_state & !p.flags_state;
        let clear_bits = p.flags_state & !row.flags_state;
        lemma_carried_keeps_distinct(
            rows,
            card.card_id,
            t,
            set_bits,
            clear_bits,
            e.bk.data_preserve,
        );
        carrying_is_confined(rows, card.card_id, t, set_bits, clear_bits, e.bk.data_preserve);
        let out = cards::carried(
            rows,
            card.card_id,
            t,
            set_bits,
            clear_bits,
            e.bk.data_preserve,
        );
        history::prior_at_is_greatest(rows, card.card_id, t);
        let k = choose|k: int| 0 <= k < rows.len() && rows[k] == row;
        assert(out[k] == rows[k]);
        assert forall|i: int|
            0 <= i < out.len() && history::covers(
                #[trigger] out[i],
                card.card_id,
                t,
            ) implies history::time(out[i]) <= history::time(row) by {
            assert(same_but_state(out[i], rows[i]));
            assert(history::covers(rows[i], card.card_id, t));
        }
        history::prior_at_unique(out, card.card_id, t, row);
    }
}

/// What a write stores is what a read at that time finds, before the followers
/// of the card are brought in step; and always where it has none.
pub proof fn write_reads_back(e: Env, db: Db, card: Card, t: u64)
    requires
        t < packed::TIME_RADIX,
        history::distinct_versions(db.cards),
    ensures
        history::prior_at(cards::row_written(e, db, card, t).cards, card.card_id, t) == Some(
            cards::stamped(e, db, card, t),
        ),
        ({
            let d = cards::row_written(e, db, card, t);
            cards::follower_ids(e, d.cards, d.cards, card.card_id, t).len() == 0
                ==> history::prior_at(
                cards::after_write(e, db, card, t).cards,
                card.card_id,
                t,
            ) == Some(cards::stamped(e, db, card, t))
        }),
{
    lemma_row_written(e, db, card, t);
}

/// Every card write keeps the table free of doubled versions.
pub proof fn writes_keep_versions_distinct(e: Env, db: Db, card: Card, t: u64, depth: nat)
    requires
        t < packed::TIME_RADIX,
        history::distinct_versions(db.cards),
    ensures
        history::distinct_versions(cards::written(e, db, card, t, depth).cards),
    decreases depth, 0nat,
{
    lemma_row_written(e, db, card, t);
    let d = cards::row_written(e, db, card, t);
    if depth > 0 {
        let prev = history::prior_at(db.cards, card.card_id, t);
        let died = cards::is_dead(e, card) && match prev {
            Some(p) => !cards::is_dead(e, p),
            None => true,
        };
        lemma_followers_keep_distinct(
            e,
            d,
            cards::follower_ids(e, d.cards, d.cards, card.card_id, t),
            died,
            card.macro_zone,
            t,
            (depth - 1) as nat,
        );
    }
}

proof fn lemma_followers_keep_distinct(
    e: Env,
    db: Db,
    ids: Seq<u32>,
    host_died: bool,
    macro_zone: u64,
    t: u64,
    depth: nat,
)
    requires
        t < packed::TIME_RADIX,
        history::distinct_versions(db.cards),
    ensures
        history::distinct_versions(
            cards::followers_written(e, db, ids, host_died, macro_zone, t, depth).cards,
        ),
    decreases depth, ids.len() + 1,
{
    if ids.len() > 0 {
        lemma_followers_keep_distinct(
            e,
            db,
            ids.drop_last(),
            host_died,
            macro_zone,
            t,
            depth,
        );
        let d = cards::followers_written(
            e,
            db,
            ids.drop_last(),
            host_died,
            macro_zone,
            t,
            depth,
        );
        if let Some(c) = history::prior_at(d.cards, ids.last(), t) {
            writes_keep_versions_distinct(
                e,
                d,
                cards::follower_edit(host_died, macro_zone, c),
                t,
                depth,
            );
        }
    }
}

/// A write under a free key is invisible to other cards, and to reads of its own
/// card at an earlier time.
pub proof fn write_is_isolated(e: Env, db: Db, card: Card, t: u64, id: u32, at: u64)
    requires
        t < packed::TIME_RADIX,
        history::distinct_versions(db.cards),
        history::key_free(db.cards, packed::valid_at_key(t, db.next_sequence)),
        id != card.card_id || at < t,
    ensures
        history::prior_at(cards::row_written(e, db, card, t).cards, id, at) == history::prior_at(
            db.cards,
            id,
            at,
        ),
{
    let prev = history::prior_at(db.cards, card.card_id, t);
    let row = cards::stamped(e, db, card, t);
    packed::valid_at_round_trip(t, db.next_sequence);
    let rows = history::stored(db.cards, row, t);
    history::write_leaves_the_rest(db.cards, row, t, id, at);
    if let Some(p) = prev {
        let set_bits = row.flags_state & !p.flags_state;
        let clear_bits = p.flags_state & !row.flags_state;
        carrying_is_confined(rows, card.card_id, t, set_bits, clear_bits, e.bk.data_preserve);
        let out = cards::carried(
            rows,
            card.card_id,
            t,
            set_bits,
            clear_bits,
            e.bk.data_preserve,
        );
        lemma_same_reads(rows, out, id, at);
    }
}

/// Tables that agree on every row of `id` up to `at` answer alike.
proof fn lemma_same_reads(a: Seq<Card>, b: Seq<Card>, id: u32, at: u64)
    requires
        a.len() == b.len(),
        forall|j: int|
            0 <= j < a.len() ==> a[j].card_id == (#[trigger] b[j]).card_id && a[j].valid_at
                == b[j].valid_at,
        forall|j: int|
            0 <= j < a.len() && history::covers(a[j], id, at) ==> #[trigger] b[j] == a[j],
    ensures
        history::prior_at(a, id, at) == history::prior_at(b, id, at),
    decreases a.len(),
{
    if a.len() > 0 {
        assert(b[b.len() - 1] == b.last());
        let a2 = a.drop_last();
        let b2 = b.drop_last();
        assert forall|j: int| 0 <= j < a2.len() implies a2[j].card_id == (#[trigger] b2[j]).card_id
            && a2[j].valid_at == b2[j].valid_at by {
            assert(b2[j] == b[j]);
        }
        assert forall|j: int|
            0 <= j < a2.len() && history::covers(a2[j], id, at) implies #[trigger] b2[j]
            == a2[j] by {
            assert(b2[j] == b[j]);
        }
        lemma_same_reads(a2, b2, id, at);
    }
}

/// A write at `t`, with every follower it moves, changes nothing that was in
/// force before `t`.
pub proof fn writes_do_not_reach_back(
    e: Env,
    db: Db,
    card: Card,
    t: u64,
    depth: nat,
    id: u32,
    at: u64,
)
    requires
        t < packed::TIME_RADIX,
        at < t,
    ensures
        history::prior_at(cards::written(e, db, card, t, depth).cards, id, at) == history::prior_at(
            db.cards,
            id,
            at,
        ),
    decreases depth, 0nat,
{
    let prev = history::prior_at(db.cards, card.card_id, t);
    let row = cards::stamped(e, db, card, t);
    packed::valid_at_round_trip(t, db.next_sequence);
    let rows = history::stored(db.cards, row, t);
    history::write_does_not_reach_back(db.cards, row, t, id, at);
    let d = cards::row_written(e, db, card, t);
    if let Some(p) = prev {
        let set_bits = row.flags_state & !p.flags_state;
        let clear_bits = p.flags_state & !row.flags_state;
        carrying_is_confined(rows, card.card_id, t, set_bits, clear_bits, e.bk.data_preserve);
        let out = cards::carried(
            rows,
            card.card_id,
            t,
            set_bits,
            clear_bits,
            e.bk.data_preserve,
        );
        assert forall|j: int| 0 <= j < rows.len() implies rows[j].card_id == (
        #[trigger] out[j]).card_id && rows[j].valid_at == out[j].valid_at by {
            assert(same_but_state(out[j], rows[j]));
        }
        lemma_same_reads(rows, out, id, at);
    }
    if depth > 0 {
        let died = cards::is_dead(e, card) && match prev {
            Some(p) => !cards::is_dead(e, p),
            None => true,
        };
        lemma_followers_do_not_reach_back(
            e,
            d,
            cards::follower_ids(e, d.cards, d.cards, card.card_id, t),
            died,
            card.macro_zone,
            t,
            (depth - 1) as nat,
            id,
            at,
        );
    }
}

proof fn lemma_followers_do_not_reach_back(
    e: Env,
    db: Db,
    ids: Seq<u32>,
    host_died: bool,
    macro_zone: u64,
    t: u64,
    depth: nat,
    id: u32,
    at: u64,
)
    requires
        t < packed::TIME_RADIX,
        at < t,
    ensures
        history::prior_at(
            cards::followers_written(e, db, ids, host_died, macro_zone, t, depth).cards,
            id,
            at,
        ) == history::prior_at(db.cards, id, at),
    decreases depth, ids.len() + 1,
{
    if ids.len() > 0 {
        let init = ids.drop_last();
        lemma_followers_do_not_reach_back(
            e,
            db,
            init,
            host_died,
            macro_zone,
            t,
            depth,
            id,
            at,
        );
        let d = cards::followers_written(e, db, init, host_died, macro_zone, t, depth);
        if let Some(c) = history::prior_at(d.cards, ids.last(), t) {
            writes_do_not_reach_back(
                e,
                d,
                cards::follower_edit(host_died, macro_zone, c),
                t,
                depth,
                id,
                at,
            );
        }
    }
}

/// A hold change reaches every later version of the card, one step each, and
/// leaves every other row as it was.
pub proof fn hold_propagation_is_exact(
    e: Env,
    db: Db,
    card_id: u32,
    t: u64,
    kind: HoldKind,
    up: bool,
    j: int,
)
    requires
        0 <= j < db.cards.len(),
    ensures
        cards::hold_propagated(e, db, card_id, t, kind, up).cards[j] == if db.cards[j].card_id
            == card_id && history::time(db.cards[j]) > t {
            cards::hold_step(e, kind, up, db.cards[j])
        } else {
            db.cards[j]
        },
{
}

/// A reference taken or given back at `t` changes nothing that was in force before
/// `t`.
pub proof fn holds_do_not_reach_back(
    e: Env,
    db: Db,
    card_id: u32,
    t: u64,
    kind: HoldKind,
    up: bool,
    id: u32,
    at: u64,
)
    requires
        t < packed::TIME_RADIX,
        at < t,
    ensures
        history::prior_at(cards::held(e, db, card_id, t, kind, up).cards, id, at)
            == history::prior_at(db.cards, id, at),
{
    let f = cards::hold_stepper(e, kind, up);
    let d = cards::edited(e, db, card_id, t, f);
    if let Some(c) = history::prior_at(db.cards, card_id, t) {
        writes_do_not_reach_back(e, db, f(c), t, cards::cascade_depth(db), id, at);
    }
    let out = cards::held(e, db, card_id, t, kind, up);
    lemma_same_reads(d.cards, out.cards, id, at);
}

/// Taking a reference and giving it back restores every later version whose
/// count was below the maximum.
pub proof fn hold_propagation_inverse(e: Env, db: Db, card_id: u32, t: u64, kind: HoldKind)
    requires
        e.wf(),
        forall|j: int|
            0 <= j < db.cards.len() && (#[trigger] db.cards[j]).card_id == card_id
                ==> cards::hold_value(e, kind, db.cards[j].flags_bk) < e.bk.spec_count_field(
                kind,
            ).max,
    ensures
        cards::hold_propagated(
            e,
            cards::hold_propagated(e, db, card_id, t, kind, true),
            card_id,
            t,
            kind,
            false,
        ) == db,
{
    reveal(Env::laid_out);
    let f = e.bk.spec_count_field(kind);
    let width = choose|width: u32| env::well_shaped(f, width);
    let up = cards::hold_propagated(e, db, card_id, t, kind, true);
    let back = cards::hold_propagated(e, up, card_id, t, kind, false);
    assert forall|j: int| 0 <= j < db.cards.len() implies #[trigger] back.cards[j]
        == db.cards[j] by {
        if db.cards[j].card_id == card_id && history::time(db.cards[j]) > t {
            env::acquire_release_inverse(db.cards[j].flags_bk, f, width);
        }
    }
    assert(back.cards =~= db.cards);
}

/// A card that `would_cycle` lets through does not occur above its new owner:
/// the walk from the new owner ends without meeting it.
pub proof fn accepted_owner_is_no_descendant(e: Env, rows: Seq<Card>, cur: u32, card_id: u32, t: u64, steps: nat)
    requires
        !cards::reaches(e, rows, cur, card_id, t, steps),
        cur != card_id,
    ensures
        cards::owner_walk(e, rows, cur, t, steps) matches cards::OwnerWalk::Soul(s, _) ==> s
            != card_id,
        cards::owner_walk(e, rows, cur, t, steps) is Lost ==> exists|id: u32|
            history::prior_at(rows, id, t) is None,
    decreases steps,
{
    if steps > 0 {
        match history::prior_at(rows, cur, t) {
            None => {},
            Some(row) => {
                if !cards::player_owned(e, row) && row.owner_id != 0 {
                    accepted_owner_is_no_descendant(
                        e,
                        rows,
                        row.owner_id,
                        card_id,
                        t,
                        (steps - 1) as nat,
                    );
                }
            },
        }
    }
}

/// The tables that no card write reaches are the same in both databases.
pub open spec fn same_around_cards(a: Db, b: Db) -> bool {
    &&& a.zones == b.zones
    &&& a.regions == b.regions
    &&& a.players == b.players
    &&& a.player_sessions == b.player_sessions
    &&& a.player_id_counter == b.player_id_counter
    &&& a.pending_actions == b.pending_actions
}

/// Writing a card, with every follower it moves, reaches no zone, region, player,
/// session or pending action.
pub proof fn card_writes_stay_with_cards(e: Env, db: Db, card: Card, t: u64, depth: nat)
    ensures
        same_around_cards(cards::written(e, db, card, t, depth), db),
    decreases depth, 0nat,
{
    let d = cards::row_written(e, db, card, t);
    if depth > 0 {
        let prev = history::prior_at(db.cards, card.card_id, t);
        let died = cards::is_dead(e, card) && match prev {
            Some(p) => !cards::is_dead(e, p),
            None => true,
        };
        lemma_followers_stay_with_cards(
            e,
            d,
            cards::follower_ids(e, d.cards, d.cards, card.card_id, t),
            died,
            card.macro_zone,
            t,
            (depth - 1) as nat,
        );
    }
}

proof fn lemma_followers_stay_with_cards(
    e: Env,
    db: Db,
    ids: Seq<u32>,
    host_died: bool,
    macro_zone: u64,
    t: u64,
    depth: nat,
)
    ensures
        same_around_cards(
            cards::followers_written(e, db, ids, host_died, macro_zone, t, depth),
            db,
        ),
    decreases depth, ids.len() + 1,
{
    if ids.len() > 0 {
        let init = ids.drop_last();
        lemma_followers_stay_with_cards(e, db, init, host_died, macro_zone, t, depth);
        let d = cards::followers_written(e, db, init, host_died, macro_zone, t, depth);
        if let Some(c) = history::prior_at(d.cards, ids.last(), t) {
            card_writes_stay_with_cards(
                e,
                d,
                cards::follower_edit(host_died, macro_zone, c),
                t,
                depth,
            );
        }
    }
}

// ---- holds over time -----------------------------------------------
/// The references of a hold family on a card in force at `at`.
pub open spec fn count_at(e: Env, db: Db, card_id: u32, kind: HoldKind, at: u64) -> u32 {
    match history::prior_at(db.cards, card_id, at) {
        Some(c) => cards::hold_value(e, kind, c.flags_bk),
        None => 0,
    }
}

/// A count after one step of a hold family.
pub open spec fn stepped(count: u32, max: u32, up: bool) -> u32 {
    if up {
        if count < max {
            (count + 1) as u32
        } else {
            max
        }
    } else if count > 0 {
        (count - 1) as u32
    } else {
        0
    }
}

/// Setting and clearing the dirty markers leaves what lies apart from them alone.
pub proof fn lemma_marks_leave_field(word: u32, mask: u32, pd: u32, dd: u32)
    by (bit_vector)
    requires
        mask & (pd | dd) == 0,
    ensures
        (word & !(pd | dd)) & mask == word & mask,
        ((word & !(pd | dd)) | pd) & mask == word & mask,
        ((word & !(pd | dd)) | dd) & mask == word & mask,
        (((word & !(pd | dd)) | pd) | dd) & mask == word & mask,
{
}

proof fn lemma_step_counts(e: Env, kind: HoldKind, up: bool, c: Card)
    requires
        e.wf(),
    ensures
        cards::hold_value(e, kind, cards::hold_step(e, kind, up, c).flags_bk) == stepped(
            cards::hold_value(e, kind, c.flags_bk),
            e.bk.spec_count_field(kind).max,
            up,
        ),
{
    let f = e.bk.spec_count_field(kind);
    reveal(Env::laid_out);
    let width = choose|width: u32| env::well_shaped(f, width);
    let v = env::field_value(c.flags_bk, f);
    env::field_read_over_write(c.flags_bk, f, width, 0);
    env::field_read_over_write(c.flags_bk, f, width, stepped(v, f.max, up));
}

/// A reference taken or given back at `t` counts from `t` on, at every time, and
/// not before.
pub proof fn holds_count_from_then_on(
    e: Env,
    db: Db,
    card_id: u32,
    t: u64,
    kind: HoldKind,
    up: bool,
    at: u64,
)
    requires
        t < packed::TIME_RADIX,
        history::distinct_versions(db.cards),
        history::key_free(db.cards, packed::valid_at_key(t, db.next_sequence)),
        history::prior_at(db.cards, card_id, t) is Some,
        e.wf(),
    ensures
        count_at(e, cards::held(e, db, card_id, t, kind, up), card_id, kind, at) == if at < t {
            count_at(e, db, card_id, kind, at)
        } else {
            stepped(
                count_at(e, db, card_id, kind, at),
                e.bk.spec_count_field(kind).max,
                up,
            )
        },
        history::prior_at(cards::held(e, db, card_id, t, kind, up).cards, card_id, at) is Some
            == history::prior_at(db.cards, card_id, at) is Some,
        history::distinct_versions(cards::held(e, db, card_id, t, kind, up).cards),
{
    let c = history::prior_at(db.cards, card_id, t)->0;
    history::prior_at_is_greatest(db.cards, card_id, t);
    history::prior_at_is_greatest(db.cards, card_id, at);
    let n = cards::hold_step(e, kind, up, c);
    let row = cards::stamped(e, db, n, t);
    let f = cards::hold_stepper(e, kind, up);
    packed::valid_at_round_trip(t, db.next_sequence);
    let d = cards::edited(e, db, card_id, t, f);
    assert(d == cards::after_write(e, db, n, t));
    assert(d == cards::row_written(e, db, n, t));
    assert(n.flags_state & !n.flags_state == 0u32) by {
        lemma_no_difference(n.flags_state);
    }
    assert(d.cards == history::stored(db.cards, row, t));
    history::change_from_a_time(db.cards, row, t, f, card_id, at);
    marking_leaves_counts(e, n, Some(c), kind);
    assert(cards::hold_value(e, kind, row.flags_bk) == cards::hold_value(e, kind, n.flags_bk));
    lemma_step_counts(e, kind, up, c);
    if at >= t {
        let p = history::prior_at(db.cards, card_id, at)->0;
        lemma_step_counts(e, kind, up, p);
        assert(history::covers(c, card_id, at));
        if history::time(p) <= t {
            assert(history::covers(p, card_id, t));
            history::prior_at_unique(db.cards, card_id, t, p);
        }
    }
}

/// Marking a row that is written leaves its hold counts alone.
pub proof fn marking_leaves_counts(e: Env, card: Card, prev: Option<Card>, kind: HoldKind)
    requires
        e.wf(),
    ensures
        cards::hold_value(e, kind, cards::marked(e, card, prev)) == cards::hold_value(
            e,
            kind,
            card.flags_bk,
        ),
{
    reveal(Env::laid_out);
    lemma_marks_leave_field(
        card.flags_bk,
        e.bk.spec_count_field(kind).mask,
        e.bk.position_dirty,
        e.bk.data_dirty,
    );
}

proof fn lemma_marks(word: u32, pd: u32, dd: u32, stack: u32)
    by (bit_vector)
    requires
        pd != 0,
        dd != 0,
        pd & dd == 0,
        (pd | dd) & stack == 0,
    ensures
        (word & !(pd | dd)) & pd == 0,
        (word & !(pd | dd)) & dd == 0,
        (word & !(pd | dd)) & stack == word & stack,
        ((word & !(pd | dd)) | pd) & pd == pd,
        ((word & !(pd | dd)) | pd) & dd == 0,
        ((word & !(pd | dd)) | pd) & stack == word & stack,
        ((word & !(pd | dd)) | dd) & dd == dd,
        ((word & !(pd | dd)) | dd) & pd == 0,
        ((word & !(pd | dd)) | dd) & stack == word & stack,
        (((word & !(pd | dd)) | pd) | dd) & pd == pd,
        (((word & !(pd | dd)) | pd) | dd) & dd == dd,
        (((word & !(pd | dd)) | pd) | dd) & stack == word & stack,
        (word & !(pd | dd)) & !(pd | dd) == word & !(pd | dd),
        ((word & !(pd | dd)) | pd) & !(pd | dd) == word & !(pd | dd),
        ((word & !(pd | dd)) | dd) & !(pd | dd) == word & !(pd | dd),
        (((word & !(pd | dd)) | pd) | dd) & !(pd | dd) == word & !(pd | dd),
{
}

/// Two rows stand at the same place.
pub open spec fn same_position(e: Env, a: Card, b: Card) -> bool {
    let stack = micro::stack_mask(e.bk);
    &&& a.macro_zone == b.macro_zone
    &&& a.micro_location == b.micro_location
    &&& a.flags_bk & stack == b.flags_bk & stack
}

/// Two rows agree on owner, definition and state.
pub open spec fn same_data(a: Card, b: Card) -> bool {
    &&& a.owner_id == b.owner_id
    &&& a.packed_definition == b.packed_definition
    &&& a.flags_state == b.flags_state
}

/// A written row is marked exactly where it differs from the row that was in force:
/// as moved where it stands elsewhere, as changed where its data differ, and as both
/// where it is the first. The marks change nothing else of it.
pub proof fn rows_are_marked_where_they_differ(e: Env, db: Db, card: Card, t: u64)
    requires
        e.wf(),
    ensures
        ({
            let prev = history::prior_at(db.cards, card.card_id, t);
            let row = cards::stamped(e, db, card, t);
            let marks = e.bk.position_dirty | e.bk.data_dirty;
            &&& row.flags_bk & e.bk.position_dirty != 0 <==> !(prev matches Some(p)
                && same_position(e, row, p))
            &&& row.flags_bk & e.bk.data_dirty != 0 <==> !(prev matches Some(p) && same_data(
                row,
                p,
            ))
            &&& row.flags_bk & !marks == card.flags_bk & !marks
            &&& same_position(e, row, card)
            &&& same_data(row, card)
        }),
{
    reveal(Env::laid_out);
    lemma_marks(card.flags_bk, e.bk.position_dirty, e.bk.data_dirty, micro::stack_mask(e.bk));
}

/// A step of one hold family leaves the counts of the others alone.
proof fn lemma_step_is_confined(e: Env, stepping: HoldKind, up: bool, c: Card, kind: HoldKind)
    requires
        e.wf(),
        kind != stepping,
    ensures
        cards::hold_value(e, kind, cards::hold_step(e, stepping, up, c).flags_bk)
            == cards::hold_value(e, kind, c.flags_bk),
{
    reveal(Env::laid_out);
    let f = e.bk.spec_count_field(stepping);
    let g = e.bk.spec_count_field(kind);
    assert(env::apart(g, f));
    let v = env::field_value(c.flags_bk, f);
    env::write_is_confined(c.flags_bk, f, stepped(v, f.max, up), g.mask);
}

/// A reference taken or given back at `t` changes one count of one card, from `t`
/// on, and nothing else.
pub proof fn hold_changes_one_count(
    e: Env,
    db: Db,
    card_id: u32,
    t: u64,
    stepping: HoldKind,
    up: bool,
    id: u32,
    kind: HoldKind,
    at: u64,
)
    requires
        e.wf(),
        t < packed::TIME_RADIX,
        history::distinct_versions(db.cards),
        history::key_free(db.cards, packed::valid_at_key(t, db.next_sequence)),
        history::prior_at(db.cards, card_id, t) is Some,
    ensures
        count_at(e, cards::held(e, db, card_id, t, stepping, up), id, kind, at) == if id == card_id
            && kind == stepping && at >= t {
            stepped(count_at(e, db, id, kind, at), e.bk.spec_count_field(kind).max, up)
        } else {
            count_at(e, db, id, kind, at)
        },
        history::prior_at(cards::held(e, db, card_id, t, stepping, up).cards, id, at) is Some
            == history::prior_at(db.cards, id, at) is Some,
        history::distinct_versions(cards::held(e, db, card_id, t, stepping, up).cards),
{
    holds_count_from_then_on(e, db, card_id, t, stepping, up, at);
    if !(id == card_id && kind == stepping) {
        let c = history::prior_at(db.cards, card_id, t)->0;
        history::prior_at_is_greatest(db.cards, card_id, t);
        history::prior_at_is_greatest(db.cards, card_id, at);
        let n = cards::hold_step(e, stepping, up, c);
        let row = cards::stamped(e, db, n, t);
        let f = cards::hold_stepper(e, stepping, up);
        packed::valid_at_round_trip(t, db.next_sequence);
        let d = cards::edited(e, db, card_id, t, f);
        assert(d == cards::after_write(e, db, n, t));
        assert(d == cards::row_written(e, db, n, t));
        lemma_no_difference(n.flags_state);
        assert(d.cards == history::stored(db.cards, row, t));
        history::change_from_a_time(db.cards, row, t, f, id, at);
        if id == card_id && at >= t {
            marking_leaves_counts(e, n, Some(c), kind);
            lemma_step_is_confined(e, stepping, up, c, kind);
            let p = history::prior_at(db.cards, card_id, at)->0;
            lemma_step_is_confined(e, stepping, up, p, kind);
            assert(history::covers(c, card_id, at));
            if history::time(p) <= t {
                assert(history::covers(p, card_id, t));
                history::prior_at_unique(db.cards, card_id, t, p);
            }
        }
    }
}

/// A word has no bit that it lacks.
pub proof fn lemma_no_difference(x: u32)
    by (bit_vector)
    ensures
        x & !x == 0,
{
}

/// A lease expires by itself: its reference counts from the acquire until the
/// release, and outside that span every count is what it was.
pub proof fn leases_expire(
    e: Env,
    db: Db,
    card_id: u32,
    kind: HoldKind,
    acquire_ms: u64,
    release_ms: u64,
    at: u64,
)
    requires
        acquire_ms < release_ms < packed::TIME_RADIX,
        history::distinct_versions(db.cards),
        history::key_free(db.cards, packed::valid_at_key(acquire_ms, db.next_sequence)),
        history::key_free(
            db.cards,
            packed::valid_at_key(
                release_ms,
                cards::held(e, db, card_id, acquire_ms, kind, true).next_sequence,
            ),
        ),
        history::prior_at(db.cards, card_id, acquire_ms) is Some,
        e.wf(),
        count_at(e, db, card_id, kind, at) < e.bk.spec_count_field(kind).max,
    ensures
        count_at(
            e,
            cards::held(
                e,
                cards::held(e, db, card_id, acquire_ms, kind, true),
                card_id,
                release_ms,
                kind,
                false,
            ),
            card_id,
            kind,
            at,
        ) == if acquire_ms <= at < release_ms {
            count_at(e, db, card_id, kind, at) + 1
        } else {
            count_at(e, db, card_id, kind, at) as int
        },
{
    let mid = cards::held(e, db, card_id, acquire_ms, kind, true);
    holds_count_from_then_on(e, db, card_id, acquire_ms, kind, true, at);
    holds_count_from_then_on(e, db, card_id, acquire_ms, kind, true, release_ms);
    let c = history::prior_at(db.cards, card_id, acquire_ms)->0;
    history::prior_at_is_greatest(db.cards, card_id, acquire_ms);
    history::prior_at_is_greatest(db.cards, card_id, release_ms);
    assert(history::covers(c, card_id, release_ms));
    lemma_hold_keys(e, db, card_id, acquire_ms, kind, true, release_ms, mid.next_sequence);
    holds_count_from_then_on(e, mid, card_id, release_ms, kind, false, at);
}

/// A hold at `t` takes no key of a later time.
proof fn lemma_hold_keys(
    e: Env,
    db: Db,
    card_id: u32,
    t: u64,
    kind: HoldKind,
    up: bool,
    later: u64,
    seq: u16,
)
    requires
        t < later < packed::TIME_RADIX,
        history::key_free(db.cards, packed::valid_at_key(later, seq)),
        history::prior_at(db.cards, card_id, t) is Some,
    ensures
        history::key_free(
            cards::held(e, db, card_id, t, kind, up).cards,
            packed::valid_at_key(later, seq),
        ),
{
    let c = history::prior_at(db.cards, card_id, t)->0;
    let n = cards::hold_step(e, kind, up, c);
    let row = cards::stamped(e, db, n, t);
    let f = cards::hold_stepper(e, kind, up);
    history::prior_at_is_greatest(db.cards, card_id, t);
    let d = cards::edited(e, db, card_id, t, f);
    assert(d == cards::after_write(e, db, n, t));
    assert(d == cards::row_written(e, db, n, t));
    lemma_no_difference(n.flags_state);
    packed::valid_at_round_trip(t, db.next_sequence);
    packed::valid_at_round_trip(later, seq);
    history::store_keeps_key_free(db.cards, row, t, packed::valid_at_key(later, seq));
    let out = cards::held(e, db, card_id, t, kind, up).cards;
    assert forall|i: int| 0 <= i < out.len() implies (#[trigger] out[i]).valid_at
        != packed::valid_at_key(later, seq) by {
        assert(d.cards[i].valid_at == out[i].valid_at);
    }
}

/// While a lease runs it shuts others out: an exclusive one keeps every other lease
/// off the card, a shared one the exclusive ones.
pub proof fn leases_exclude(
    e: Env,
    db: Db,
    card_id: u32,
    acquire_ms: u64,
    release_ms: u64,
    leased: HoldKind,
    wanted: u8,
    at: u64,
)
    requires
        acquire_ms <= at < release_ms < packed::TIME_RADIX,
        leased == HoldKind::SlotHold && (wanted == 1 || wanted == 2) || leased
            == HoldKind::SlotShare && wanted == 1,
        history::distinct_versions(db.cards),
        history::key_free(db.cards, packed::valid_at_key(acquire_ms, db.next_sequence)),
        history::key_free(
            db.cards,
            packed::valid_at_key(
                release_ms,
                cards::held(e, db, card_id, acquire_ms, leased, true).next_sequence,
            ),
        ),
        history::prior_at(db.cards, card_id, acquire_ms) is Some,
        e.wf(),
        count_at(e, db, card_id, leased, at) < e.bk.spec_count_field(leased).max,
    ensures
        gate_api::lease_conflict(
            e,
            cards::held(
                e,
                cards::held(e, db, card_id, acquire_ms, leased, true),
                card_id,
                release_ms,
                leased,
                false,
            ),
            card_id,
            wanted,
            at,
        ) is Some,
{
    leases_expire(e, db, card_id, leased, acquire_ms, release_ms, at);
}

} // verus!
