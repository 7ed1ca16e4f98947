//! In-flight action registry: the dedup gate keyed on the recipe, root and
//! bindings of a proposal.
//!
//! A row is installed before any write of the action lands and released after
//! its completion effects are written. While it is there, a proposal that
//! hashes to the same key is rejected. Rows that were never released are reaped
//! by [`sweep_stale`].
use std::collections::hash_map::DefaultHasher;
use std::hash::Hasher;

use vstd::prelude::*;
use vstd::std_specs::hash::DefaultHasherAdditionalSpecFns;

use crate::history;

verus! {

/// One in-flight action.
#[derive(Clone, Copy, Debug, PartialEq, Eq, Structural)]
pub struct PendingAction {
    pub dedup_key: u64,
    /// When the completion effects of the action are stamped.
    pub completion_ms: u64,
}

/// Grace beyond `completion_ms` after which a row is presumed orphaned.
pub const STALE_GRACE_MS: u64 = 300_000;

// ---- the key -------------------------------------------------------
/// The `n` low bytes of `v`, lowest first.
pub open spec fn le_bytes(v: int, n: nat) -> Seq<u8>
    decreases n,
{
    if n == 0 {
        Seq::empty()
    } else {
        seq![(v % 256) as u8] + le_bytes(v / 256, (n - 1) as nat)
    }
}

/// A row of card ids, preceded by its length.
pub open spec fn row_bytes(row: Seq<u32>) -> Seq<u8> {
    le_bytes(row.len() as int, 8) + ids_bytes(row)
}

pub open spec fn ids_bytes(row: Seq<u32>) -> Seq<u8>
    decreases row.len(),
{
    if row.len() == 0 {
        Seq::empty()
    } else {
        ids_bytes(row.drop_last()) + le_bytes(row.last() as int, 4)
    }
}

pub open spec fn rows_bytes(rows: Seq<Vec<u32>>) -> Seq<u8>
    decreases rows.len(),
{
    if rows.len() == 0 {
        Seq::empty()
    } else {
        rows_bytes(rows.drop_last()) + row_bytes(rows.last()@)
    }
}

/// The bytes of a proposal: recipe, root, then the rows of bindings in order,
/// each sequence preceded by its length.
pub open spec fn proposal_bytes(recipe_id: u16, root: u32, bindings: Seq<Vec<u32>>) -> Seq<u8> {
    le_bytes(recipe_id as int, 2) + le_bytes(root as int, 4) + le_bytes(bindings.len() as int, 8)
        + rows_bytes(bindings)
}

/// The dedup key of a proposal: the default hash of its bytes.
pub open spec fn key_of(recipe_id: u16, root: u32, bindings: Seq<Vec<u32>>) -> u64 {
    DefaultHasher::spec_finish(seq![proposal_bytes(recipe_id, root, bindings)])
}

fn push_le(out: &mut Vec<u8>, v: u64, n: usize)
    ensures
        final(out)@ == old(out)@ + le_bytes(v as int, n as nat),
{
    let mut rest: u64 = v;
    let mut i: usize = 0;
    let ghost start = out@;
    assert(start + le_bytes(v as int, n as nat) =~= out@ + le_bytes(rest as int, n as nat));
    while i < n
        invariant
            i <= n,
            start + le_bytes(v as int, n as nat) == out@ + le_bytes(rest as int, (n - i) as nat),
        decreases n - i,
    {
        let ghost before = out@;
        proof {
            reveal_with_fuel(le_bytes, 2);
        }
        out.push((rest % 256) as u8);
        assert(before + le_bytes(rest as int, (n - i) as nat) =~= out@ + le_bytes(
            rest as int / 256,
            (n - i - 1) as nat,
        ));
        rest = rest / 256;
        i = i + 1;
    }
    assert(out@ + le_bytes(rest as int, 0) =~= out@);
}

/// Dedup key of a `(recipe, root, bindings)` tuple: the same inputs give the
/// same key, and the order of bindings counts.
pub fn dedup_key(recipe_id: u16, root: u32, bindings: &Vec<Vec<u32>>) -> (key: u64)
    ensures
        key == key_of(recipe_id, root, bindings@),
{
    let mut bytes: Vec<u8> = Vec::new();
    push_le(&mut bytes, recipe_id as u64, 2);
    push_le(&mut bytes, root as u64, 4);
    push_le(&mut bytes, bindings.len() as u64, 8);
    let ghost head = bytes@;
    assert(head =~= le_bytes(recipe_id as int, 2) + le_bytes(root as int, 4) + le_bytes(
        bindings@.len() as int,
        8,
    ));
    let mut i: usize = 0;
    assert(bindings@.take(0) =~= Seq::empty());
    assert(head + rows_bytes(Seq::empty()) =~= head);
    while i < bindings.len()
        invariant
            i <= bindings.len(),
            bytes@ == head + rows_bytes(bindings@.take(i as int)),
        decreases bindings.len() - i,
    {
        let row = &bindings[i];
        let ghost before = bytes@;
        push_le(&mut bytes, row.len() as u64, 8);
        let ghost mid = bytes@;
        let mut j: usize = 0;
        assert(row@.take(0) =~= Seq::empty());
        assert(mid + ids_bytes(Seq::empty()) =~= mid);
        while j < row.len()
            invariant
                j <= row.len(),
                bytes@ == mid + ids_bytes(row@.take(j as int)),
            decreases row.len() - j,
        {
            let ghost now = bytes@;
            push_le(&mut bytes, row[j] as u64, 4);
            proof {
                let next = row@.take(j + 1);
                assert(next.drop_last() =~= row@.take(j as int));
                assert(next.last() == row@[j as int]);
                assert(bytes@ =~= mid + ids_bytes(next));
            }
            j = j + 1;
        }
        proof {
            assert(row@.take(row@.len() as int) =~= row@);
            let next = bindings@.take(i + 1);
            assert(next.drop_last() =~= bindings@.take(i as int));
            assert(next.last()@ == row@);
            assert(bytes@ =~= head + rows_bytes(next));
        }
        i = i + 1;
    }
    assert(bindings@.take(bindings@.len() as int) =~= bindings@);
    let mut h = DefaultHasher::new();
    h.write(bytes.as_slice());
    assert(h@ =~= seq![proposal_bytes(recipe_id, root, bindings@)]);
    h.finish()
}

// ---- the registry --------------------------------------------------
/// A row for `key` is registered.
pub open spec fn in_flight(rows: Seq<PendingAction>, key: u64) -> bool {
    exists|i: int| 0 <= i < rows.len() && (#[trigger] rows[i]).dedup_key == key
}

/// No key is registered twice.
pub open spec fn distinct_keys(rows: Seq<PendingAction>) -> bool {
    forall|i: int, j: int|
        #![trigger rows[i], rows[j]]
        0 <= i < j < rows.len() ==> rows[i].dedup_key != rows[j].dedup_key
}

pub open spec fn other_key(key: u64) -> spec_fn(PendingAction) -> bool {
    |r: PendingAction| r.dedup_key != key
}

/// `rows` without the row for `key`.
pub open spec fn released(rows: Seq<PendingAction>, key: u64) -> Seq<PendingAction> {
    rows.filter(other_key(key))
}

pub open spec fn not_stale(now_ms: u64) -> spec_fn(PendingAction) -> bool {
    |r: PendingAction| !(r.completion_ms + STALE_GRACE_MS < now_ms)
}

/// True if a registry row exists for `dedup_key`.
pub fn is_in_flight(rows: &Vec<PendingAction>, dedup_key: u64) -> (r: bool)
    ensures
        r == in_flight(rows@, dedup_key),
{
    let mut i: usize = 0;
    while i < rows.len()
        invariant
            i <= rows.len(),
            forall|j: int| 0 <= j < i ==> (#[trigger] rows@[j]).dedup_key != dedup_key,
        decreases rows.len() - i,
    {
        if rows[i].dedup_key == dedup_key {
            assert(rows@[i as int].dedup_key == dedup_key);
            return true;
        }
        i = i + 1;
    }
    false
}

/// Register an action. The key must not be in flight.
pub fn install(rows: &mut Vec<PendingAction>, dedup_key: u64, completion_ms: u64)
    requires
        !in_flight(old(rows)@, dedup_key),
    ensures
        final(rows)@ == old(rows)@.push(PendingAction { dedup_key, completion_ms }),
{
    rows.push(PendingAction { dedup_key, completion_ms });
}

/// Remove the row for `dedup_key`; nothing happens where there is none.
pub fn release(rows: &mut Vec<PendingAction>, dedup_key: u64)
    ensures
        final(rows)@ == released(old(rows)@, dedup_key),
{
    let mut kept: Vec<PendingAction> = Vec::new();
    let mut i: usize = 0;
    let ghost all = rows@;
    let ghost keep = other_key(dedup_key);
    proof {
        reveal(Seq::filter);
        assert(all.take(0).filter(keep) =~= Seq::empty());
    }
    while i < rows.len()
        invariant
            i <= rows.len(),
            rows@ == all,
            keep == other_key(dedup_key),
            kept@ == all.take(i as int).filter(keep),
        decreases rows.len() - i,
    {
        let row = rows[i];
        proof {
            history::filter_take_step(all, i as int, keep);
        }
        if row.dedup_key != dedup_key {
            kept.push(row);
        }
        i = i + 1;
    }
    assert(all.take(all.len() as int) =~= all);
    *rows = kept;
}

/// Reap the rows whose grace has run out.
pub fn sweep_stale(rows: &mut Vec<PendingAction>, now_ms: u64)
    ensures
        final(rows)@ == old(rows)@.filter(not_stale(now_ms)),
{
    let cutoff: u64 = if now_ms > STALE_GRACE_MS {
        now_ms - STALE_GRACE_MS
    } else {
        0
    };
    let mut kept: Vec<PendingAction> = Vec::new();
    let mut i: usize = 0;
    let ghost all = rows@;
    let ghost keep = not_stale(now_ms);
    proof {
        reveal(Seq::filter);
        assert(all.take(0).filter(keep) =~= Seq::empty());
    }
    while i < rows.len()
        invariant
            i <= rows.len(),
            rows@ == all,
            keep == not_stale(now_ms),
            cutoff == if now_ms > STALE_GRACE_MS {
                (now_ms - STALE_GRACE_MS) as u64
            } else {
                0
            },
            kept@ == all.take(i as int).filter(keep),
        decreases rows.len() - i,
    {
        let row = rows[i];
        proof {
            history::filter_take_step(all, i as int, keep);
        }
        if row.completion_ms >= cutoff {
            kept.push(row);
        }
        i = i + 1;
    }
    assert(all.take(all.len() as int) =~= all);
    *rows = kept;
}

// ---- laws ----------------------------------------------------------
/// An installed key is in flight, and a released one is not.
pub proof fn claim_then_release(rows: Seq<PendingAction>, key: u64, completion_ms: u64)
    requires
        !in_flight(rows, key),
    ensures
        in_flight(rows.push(PendingAction { dedup_key: key, completion_ms }), key),
        !in_flight(
            released(rows.push(PendingAction { dedup_key: key, completion_ms }), key),
            key,
        ),
        released(rows.push(PendingAction { dedup_key: key, completion_ms }), key) == rows,
{
    let row = PendingAction { dedup_key: key, completion_ms };
    let all = rows.push(row);
    assert(all[rows.len() as int].dedup_key == key);
    lemma_filter_keeps_all(rows, key);
    reveal(Seq::filter);
    assert(all.drop_last() =~= rows);
}

proof fn lemma_filter_keeps_all(rows: Seq<PendingAction>, key: u64)
    requires
        !in_flight(rows, key),
    ensures
        released(rows, key) == rows,
    decreases rows.len(),
{
    reveal(Seq::filter);
    if rows.len() > 0 {
        let init = rows.drop_last();
        assert forall|i: int| 0 <= i < init.len() implies (#[trigger] init[i]).dedup_key
            != key by {
            assert(rows[i] == init[i]);
        }
        assert(rows[rows.len() - 1].dedup_key != key);
        lemma_filter_keeps_all(init, key);
        assert(rows =~= init.push(rows.last()));
    } else {
        assert(released(rows, key) =~= rows);
    }
}

/// No operation registers a key twice: not the installation of a key that is not
/// in flight, not a release, and not the sweep of stale rows.
pub proof fn keys_stay_distinct(
    rows: Seq<PendingAction>,
    key: u64,
    completion_ms: u64,
    now_ms: u64,
)
    requires
        distinct_keys(rows),
    ensures
        !in_flight(rows, key) ==> distinct_keys(
            rows.push(PendingAction { dedup_key: key, completion_ms }),
        ),
        distinct_keys(released(rows, key)),
        distinct_keys(rows.filter(not_stale(now_ms))),
{
    lemma_filter_stays_distinct(rows, other_key(key));
    lemma_filter_stays_distinct(rows, not_stale(now_ms));
}

proof fn lemma_filter_stays_distinct(
    rows: Seq<PendingAction>,
    keep: spec_fn(PendingAction) -> bool,
)
    requires
        distinct_keys(rows),
    ensures
        distinct_keys(rows.filter(keep)),
    decreases rows.len(),
{
    reveal(Seq::filter);
    if rows.len() > 0 {
        let init = rows.drop_last();
        let last = rows.last();
        assert forall|i: int, j: int|
            #![trigger init[i], init[j]]
            0 <= i < j < init.len() implies init[i].dedup_key != init[j].dedup_key by {
            assert(init[i] == rows[i] && init[j] == rows[j]);
        }
        lemma_filter_stays_distinct(init, keep);
        let f = init.filter(keep);
        assert forall|i: int| 0 <= i < f.len() implies (#[trigger] f[i]).dedup_key
            != last.dedup_key by {
            assert(f.contains(f[i]));
            init.lemma_filter_contains_rev(keep, f[i]);
            let k = choose|k: int| 0 <= k < init.len() && init[k] == f[i];
            assert(rows[k] == init[k] && rows[rows.len() - 1] == last);
        }
    }
}

/// Two numbers of the same width with the same bytes are the same number.
proof fn lemma_le_bytes(a: int, b: int, n: nat)
    requires
        le_bytes(a, n) == le_bytes(b, n),
        0 <= a < bound(n),
        0 <= b < bound(n),
    ensures
        a == b,
    decreases n,
{
    if n > 0 {
        let x = le_bytes(a, n);
        let y = le_bytes(b, n);
        assert(x[0] == y[0]);
        assert(x.skip(1) =~= le_bytes(a / 256, (n - 1) as nat));
        assert(y.skip(1) =~= le_bytes(b / 256, (n - 1) as nat));
        lemma_le_bytes(a / 256, b / 256, (n - 1) as nat);
    }
}

/// The numbers that fit in `n` bytes lie below this.
pub open spec fn bound(n: nat) -> int
    decreases n,
{
    if n == 0 {
        1
    } else {
        256 * bound((n - 1) as nat)
    }
}

proof fn lemma_le_len(v: int, n: nat)
    ensures
        le_bytes(v, n).len() == n,
    decreases n,
{
    if n > 0 {
        lemma_le_len(v / 256, (n - 1) as nat);
    }
}

proof fn lemma_ids_len(row: Seq<u32>)
    ensures
        ids_bytes(row).len() == 4 * row.len(),
    decreases row.len(),
{
    if row.len() > 0 {
        lemma_ids_len(row.drop_last());
        lemma_le_len(row.last() as int, 4);
    }
}

proof fn lemma_bounds()
    ensures
        bound(2) == 0x1_0000,
        bound(4) == 0x1_0000_0000,
        bound(8) == 0x1_0000_0000_0000_0000,
{
    reveal_with_fuel(bound, 9);
}

/// Sequences with equal concatenations and equal first lengths are equal.
proof fn lemma_split(a: Seq<u8>, x: Seq<u8>, b: Seq<u8>, y: Seq<u8>)
    requires
        a + x == b + y,
        a.len() == b.len(),
    ensures
        a == b,
        x == y,
{
    let s = a + x;
    let t = b + y;
    assert(a =~= s.take(a.len() as int));
    assert(b =~= t.take(a.len() as int));
    assert(x =~= s.skip(a.len() as int));
    assert(y =~= t.skip(a.len() as int));
}

proof fn lemma_ids(a: Seq<u32>, b: Seq<u32>)
    requires
        ids_bytes(a) == ids_bytes(b),
    ensures
        a == b,
    decreases a.len(),
{
    lemma_ids_len(a);
    lemma_ids_len(b);
    if a.len() > 0 {
        lemma_ids_len(a.drop_last());
        lemma_ids_len(b.drop_last());
        lemma_split(
            ids_bytes(a.drop_last()),
            le_bytes(a.last() as int, 4),
            ids_bytes(b.drop_last()),
            le_bytes(b.last() as int, 4),
        );
        lemma_bounds();
        lemma_le_bytes(a.last() as int, b.last() as int, 4);
        lemma_ids(a.drop_last(), b.drop_last());
        assert(a =~= a.drop_last().push(a.last()));
        assert(b =~= b.drop_last().push(b.last()));
    } else {
        assert(a =~= b);
    }
}

/// The rows of bindings, from the front.
proof fn lemma_rows_front(rows: Seq<Vec<u32>>)
    requires
        rows.len() > 0,
    ensures
        rows_bytes(rows) == row_bytes(rows[0]@) + rows_bytes(rows.skip(1)),
    decreases rows.len(),
{
    if rows.len() == 1 {
        assert(rows.drop_last() =~= Seq::empty());
        assert(rows.skip(1) =~= Seq::empty());
        assert(rows_bytes(rows) =~= row_bytes(rows[0]@) + rows_bytes(rows.skip(1)));
    } else {
        let init = rows.drop_last();
        lemma_rows_front(init);
        assert(rows.skip(1).drop_last() =~= init.skip(1));
        assert(rows.skip(1).last() == rows.last());
        assert(rows_bytes(rows) =~= row_bytes(rows[0]@) + rows_bytes(rows.skip(1)));
    }
}

proof fn lemma_rows(a: Seq<Vec<u32>>, b: Seq<Vec<u32>>)
    requires
        a.len() == b.len(),
        rows_bytes(a) == rows_bytes(b),
        forall|i: int| 0 <= i < a.len() ==> (#[trigger] a[i])@.len() <= u64::MAX,
        forall|i: int| 0 <= i < b.len() ==> (#[trigger] b[i])@.len() <= u64::MAX,
    ensures
        forall|i: int| 0 <= i < a.len() ==> (#[trigger] a[i])@ == b[i]@,
    decreases a.len(),
{
    if a.len() > 0 {
        lemma_rows_front(a);
        lemma_rows_front(b);
        let p = a[0]@;
        let q = b[0]@;
        let x = ids_bytes(p) + rows_bytes(a.skip(1));
        let y = ids_bytes(q) + rows_bytes(b.skip(1));
        assert(rows_bytes(a) =~= le_bytes(p.len() as int, 8) + x);
        assert(rows_bytes(b) =~= le_bytes(q.len() as int, 8) + y);
        lemma_le_len(p.len() as int, 8);
        lemma_le_len(q.len() as int, 8);
        lemma_split(le_bytes(p.len() as int, 8), x, le_bytes(q.len() as int, 8), y);
        lemma_bounds();
        lemma_le_bytes(p.len() as int, q.len() as int, 8);
        lemma_ids_len(p);
        lemma_ids_len(q);
        lemma_split(ids_bytes(p), rows_bytes(a.skip(1)), ids_bytes(q), rows_bytes(b.skip(1)));
        lemma_ids(p, q);
        lemma_rows(a.skip(1), b.skip(1));
        assert forall|i: int| 0 <= i < a.len() implies (#[trigger] a[i])@ == b[i]@ by {
            if i > 0 {
                assert(a.skip(1)[i - 1] == a[i]);
                assert(b.skip(1)[i - 1] == b[i]);
            }
        }
    }
}

/// Proposals that differ in their recipe, their root or any binding are hashed
/// from different bytes.
pub proof fn proposals_differ_in_their_bytes(
    recipe_a: u16,
    root_a: u32,
    a: Seq<Vec<u32>>,
    recipe_b: u16,
    root_b: u32,
    b: Seq<Vec<u32>>,
)
    requires
        proposal_bytes(recipe_a, root_a, a) == proposal_bytes(recipe_b, root_b, b),
        a.len() <= u64::MAX,
        b.len() <= u64::MAX,
        forall|i: int| 0 <= i < a.len() ==> (#[trigger] a[i])@.len() <= u64::MAX,
        forall|i: int| 0 <= i < b.len() ==> (#[trigger] b[i])@.len() <= u64::MAX,
    ensures
        recipe_a == recipe_b,
        root_a == root_b,
        a.len() == b.len(),
        forall|i: int| 0 <= i < a.len() ==> (#[trigger] a[i])@ == b[i]@,
{
    let ra = le_bytes(recipe_a as int, 2);
    let rb = le_bytes(recipe_b as int, 2);
    let oa = le_bytes(root_a as int, 4);
    let ob = le_bytes(root_b as int, 4);
    let na = le_bytes(a.len() as int, 8);
    let nb = le_bytes(b.len() as int, 8);
    lemma_le_len(recipe_a as int, 2);
    lemma_le_len(recipe_b as int, 2);
    lemma_le_len(root_a as int, 4);
    lemma_le_len(root_b as int, 4);
    lemma_le_len(a.len() as int, 8);
    lemma_le_len(b.len() as int, 8);
    lemma_bounds();
    lemma_split(ra + oa + na, rows_bytes(a), rb + ob + nb, rows_bytes(b));
    lemma_split(ra + oa, na, rb + ob, nb);
    lemma_split(ra, oa, rb, ob);
    lemma_le_bytes(recipe_a as int, recipe_b as int, 2);
    lemma_le_bytes(root_a as int, root_b as int, 4);
    lemma_le_bytes(a.len() as int, b.len() as int, 8);
    lemma_rows(a, b);
}

} // verus!
