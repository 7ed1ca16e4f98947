//! Version-history tables.
//!
//! A history table holds several rows per entity. Each row carries the packed
//! `valid_at` key of the moment from which it is in force; the row in force at
//! time `t` is the one with the greatest time that is not after `t`.
use std::collections::HashMap;

use vstd::prelude::*;

use crate::packed;

verus! {

/// A row of a history table.
pub trait Version: Sized {
    /// The entity that this row describes.
    spec fn spec_entity(self) -> u32;

    /// The packed `valid_at` key.
    spec fn spec_key(self) -> u64;

    fn entity(&self) -> (id: u32)
        ensures
            id == self.spec_entity(),
    ;

    fn key(&self) -> (k: u64)
        ensures
            k == self.spec_key(),
    ;
}

/// The time from which `row` is in force.
pub open spec fn time<R: Version>(row: R) -> u64 {
    packed::time_of(row.spec_key())
}

/// `row` is a version of `id` that is in force no later than `t`.
pub open spec fn covers<R: Version>(row: R, id: u32, t: u64) -> bool {
    row.spec_entity() == id && time(row) <= t
}

/// The row of `id` in force at `t`: the last one among those with the greatest
/// time not after `t`.
pub open spec fn prior_at<R: Version>(rows: Seq<R>, id: u32, t: u64) -> Option<R>
    decreases rows.len(),
{
    if rows.len() == 0 {
        None
    } else {
        let earlier = prior_at(rows.drop_last(), id, t);
        let row = rows.last();
        if covers(row, id, t) && (earlier matches Some(e) ==> time(e) <= time(row)) {
            Some(row)
        } else {
            earlier
        }
    }
}

/// The row of `id` with the greatest time, future rows included.
pub open spec fn latest<R: Version>(rows: Seq<R>, id: u32) -> Option<R> {
    prior_at(rows, id, u64::MAX)
}

pub open spec fn not_version<R: Version>(id: u32, t: u64) -> spec_fn(R) -> bool {
    |r: R| !(r.spec_entity() == id && time(r) == t)
}

pub open spec fn not_key<R: Version>(key: u64) -> spec_fn(R) -> bool {
    |r: R| r.spec_key() != key
}

/// `rows` without the versions of `id` that start exactly at `t`.
pub open spec fn without_version<R: Version>(rows: Seq<R>, id: u32, t: u64) -> Seq<R> {
    rows.filter(not_version::<R>(id, t))
}

/// `rows` without the row stored under `key`.
pub open spec fn without_key<R: Version>(rows: Seq<R>, key: u64) -> Seq<R> {
    rows.filter(not_key::<R>(key))
}

/// No two rows share a key, and no two versions of one entity share a time.
pub open spec fn distinct_versions<R: Version>(rows: Seq<R>) -> bool {
    forall|i: int, j: int|
        #![trigger rows[i], rows[j]]
        0 <= i < j < rows.len() ==> rows[i].spec_key() != rows[j].spec_key() && !(
        rows[i].spec_entity() == rows[j].spec_entity() && time(rows[i]) == time(rows[j]))
}

/// What `prior_at` finds is a row of the table that covers `(id, t)`, and no
/// covering row is later; it finds nothing only where nothing covers.
pub proof fn prior_at_is_greatest<R: Version>(rows: Seq<R>, id: u32, t: u64)
    ensures
        match prior_at(rows, id, t) {
            Some(r) => rows.contains(r) && covers(r, id, t) && forall|i: int|
                0 <= i < rows.len() && covers(#[trigger] rows[i], id, t) ==> time(rows[i]) <= time(
                    r,
                ),
            None => forall|i: int| 0 <= i < rows.len() ==> !covers(#[trigger] rows[i], id, t),
        },
    decreases rows.len(),
{
    if rows.len() > 0 {
        let init = rows.drop_last();
        prior_at_is_greatest(init, id, t);
        assert forall|i: int| 0 <= i < init.len() implies #[trigger] init[i] == rows[i] by {}
        if let Some(e) = prior_at(init, id, t) {
            let k = choose|k: int| 0 <= k < init.len() && init[k] == e;
            assert(rows[k] == e);
        }
        assert(rows[rows.len() - 1] == rows.last());
        assert forall|i: int| 0 <= i < rows.len() - 1 implies #[trigger] rows[i] == init[i] by {}
    }
}

/// In a table without doubled versions the row in force is the only covering
/// row of its time: `prior_at` does not depend on the order of the rows.
pub proof fn prior_at_unique<R: Version>(rows: Seq<R>, id: u32, t: u64, row: R)
    requires
        distinct_versions(rows),
        rows.contains(row),
        covers(row, id, t),
        forall|i: int|
            0 <= i < rows.len() && covers(#[trigger] rows[i], id, t) ==> time(rows[i]) <= time(row),
    ensures
        prior_at(rows, id, t) == Some(row),
{
    prior_at_is_greatest(rows, id, t);
    let k = choose|k: int| 0 <= k < rows.len() && rows[k] == row;
    assert(covers(rows[k], id, t));
    if let Some(r) = prior_at(rows, id, t) {
        let j = choose|j: int| 0 <= j < rows.len() && rows[j] == r;
        assert(covers(rows[j], id, t));
        assert(time(rows[j]) == time(rows[k]));
        if j < k {
            assert(rows[j].spec_key() != rows[k].spec_key());
        }
        if k < j {
            assert(rows[k].spec_key() != rows[j].spec_key());
        }
    }
}

/// Position of the row of `id` in force at `t`.
pub fn find_prior_index<R: Version>(rows: &Vec<R>, id: u32, t: u64) -> (found: Option<usize>)
    ensures
        match found {
            Some(i) => i < rows.len() && prior_at(rows@, id, t) == Some(rows@[i as int]),
            None => prior_at(rows@, id, t) is None,
        },
{
    let mut found: Option<usize> = None;
    let mut i: usize = 0;
    while i < rows.len()
        invariant
            i <= rows.len(),
            match found {
                Some(k) => k < i && prior_at(rows@.take(i as int), id, t) == Some(rows@[k as int]),
                None => prior_at(rows@.take(i as int), id, t) is None,
            },
        decreases rows.len() - i,
    {
        proof {
            let next = rows@.take(i + 1);
            assert(next.drop_last() =~= rows@.take(i as int));
            assert(next.last() == rows@[i as int]);
        }
        if rows[i].entity() == id && packed::valid_at_time(rows[i].key()) <= t {
            match found {
                Some(k) => {
                    if packed::valid_at_time(rows[k].key()) <= packed::valid_at_time(
                        rows[i].key(),
                    ) {
                        found = Some(i);
                    }
                },
                None => {
                    found = Some(i);
                },
            }
        }
        i = i + 1;
    }
    assert(rows@.take(rows.len() as int) =~= rows@);
    found
}

/// The row of `id` in force at `t`.
pub fn find_prior_at<R: Version + Copy>(rows: &Vec<R>, id: u32, t: u64) -> (found: Option<R>)
    ensures
        found == prior_at(rows@, id, t),
{
    match find_prior_index(rows, id, t) {
        Some(i) => Some(rows[i]),
        None => None,
    }
}

/// Appending one element to a sequence appends it to the filtered sequence, or
/// leaves that unchanged.
pub proof fn filter_take_step<A>(s: Seq<A>, i: int, keep: spec_fn(A) -> bool)
    requires
        0 <= i < s.len(),
    ensures
        s.take(i + 1).filter(keep) == if keep(s[i]) {
            s.take(i).filter(keep).push(s[i])
        } else {
            s.take(i).filter(keep)
        },
{
    reveal(Seq::filter);
    let next = s.take(i + 1);
    assert(next.drop_last() =~= s.take(i));
    assert(next.last() == s[i]);
}

pub fn remove_version<R: Version>(rows: &mut Vec<R>, id: u32, t: u64)
    ensures
        final(rows)@ == without_version(old(rows)@, id, t),
{
    let ghost all = rows@;
    let ghost keep = not_version::<R>(id, t);
    let ghost mut seen: int = 0;
    let mut i: usize = 0;
    proof {
        reveal(Seq::filter);
        assert(all.take(0).filter(keep) =~= Seq::empty());
        assert(rows@.take(0) =~= Seq::empty());
        assert(all.skip(0) =~= all);
        assert(rows@.skip(0) =~= all);
    }
    while i < rows.len()
        invariant
            i <= rows.len(),
            0 <= seen <= all.len(),
            keep == not_version::<R>(id, t),
            rows@.take(i as int) == all.take(seen).filter(keep),
            rows@.skip(i as int) == all.skip(seen),
        decreases rows.len() - i,
    {
        let ghost before = rows@;
        proof {
            assert(rows@.skip(i as int).len() == all.skip(seen).len());
            assert(rows@.skip(i as int)[0] == rows@[i as int]);
            assert(all.skip(seen)[0] == all[seen]);
            filter_take_step(all, seen, keep);
            assert(all.skip(seen).skip(1) =~= all.skip(seen + 1));
            assert(before.skip(i as int).skip(1) =~= before.skip(i + 1));
        }
        if rows[i].entity() == id && packed::valid_at_time(rows[i].key()) == t {
            let _ = rows.remove(i);
            assert(rows@.take(i as int) =~= before.take(i as int));
            assert(rows@.skip(i as int) =~= before.skip(i + 1));
        } else {
            i = i + 1;
            assert(rows@.take(i as int) =~= before.take(i - 1).push(before[i - 1]));
        }
        proof {
            seen = seen + 1;
        }
    }
    proof {
        assert(rows@.skip(i as int).len() == all.skip(seen).len());
        assert(all.take(seen) =~= all);
        assert(rows@.take(i as int) =~= rows@);
    }
}

pub fn remove_key<R: Version>(rows: &mut Vec<R>, key: u64)
    ensures
        final(rows)@ == without_key(old(rows)@, key),
{
    let ghost all = rows@;
    let ghost keep = not_key::<R>(key);
    let ghost mut seen: int = 0;
    let mut i: usize = 0;
    proof {
        reveal(Seq::filter);
        assert(all.take(0).filter(keep) =~= Seq::empty());
        assert(rows@.take(0) =~= Seq::empty());
        assert(all.skip(0) =~= all);
        assert(rows@.skip(0) =~= all);
    }
    while i < rows.len()
        invariant
            i <= rows.len(),
            0 <= seen <= all.len(),
            keep == not_key::<R>(key),
            rows@.take(i as int) == all.take(seen).filter(keep),
            rows@.skip(i as int) == all.skip(seen),
        decreases rows.len() - i,
    {
        let ghost before = rows@;
        proof {
            assert(rows@.skip(i as int).len() == all.skip(seen).len());
            assert(rows@.skip(i as int)[0] == rows@[i as int]);
            assert(all.skip(seen)[0] == all[seen]);
            filter_take_step(all, seen, keep);
            assert(all.skip(seen).skip(1) =~= all.skip(seen + 1));
            assert(before.skip(i as int).skip(1) =~= before.skip(i + 1));
        }
        if rows[i].key() == key {
            let _ = rows.remove(i);
            assert(rows@.take(i as int) =~= before.take(i as int));
            assert(rows@.skip(i as int) =~= before.skip(i + 1));
        } else {
            i = i + 1;
            assert(rows@.take(i as int) =~= before.take(i - 1).push(before[i - 1]));
        }
        proof {
            seen = seen + 1;
        }
    }
    proof {
        assert(rows@.skip(i as int).len() == all.skip(seen).len());
        assert(all.take(seen) =~= all);
        assert(rows@.take(i as int) =~= rows@);
    }
}

/// `rows` after storing `row` as the version of its entity at `t`: any version
/// at that time, and any row under the same key, gives way.
pub open spec fn stored<R: Version>(rows: Seq<R>, row: R, t: u64) -> Seq<R> {
    without_key(without_version(rows, row.spec_entity(), t), row.spec_key()).push(row)
}

pub fn store<R: Version>(rows: &mut Vec<R>, row: R, t: u64)
    ensures
        final(rows)@ == stored(old(rows)@, row, t),
{
    remove_version(rows, row.entity(), t);
    remove_key(rows, row.key());
    rows.push(row);
}

/// `rows` with `f` applied to every version of `id` that starts after `t`.
pub open spec fn on_future<R: Version>(rows: Seq<R>, id: u32, t: u64, f: spec_fn(R) -> R) -> Seq<R> {
    rows.map_values(
        |r: R|
            if r.spec_entity() == id && time(r) > t {
                f(r)
            } else {
                r
            },
    )
}

/// No row is stored under `key`.
pub open spec fn key_free<R: Version>(rows: Seq<R>, key: u64) -> bool {
    forall|i: int| 0 <= i < rows.len() ==> (#[trigger] rows[i]).spec_key() != key
}

/// Filtering keeps only rows of the table, and all that satisfy the filter.
pub proof fn filter_members<A>(s: Seq<A>, keep: spec_fn(A) -> bool)
    ensures
        forall|i: int|
            0 <= i < s.filter(keep).len() ==> keep(#[trigger] s.filter(keep)[i]) && s.contains(
                s.filter(keep)[i],
            ),
        forall|i: int| 0 <= i < s.len() && keep(#[trigger] s[i]) ==> s.filter(keep).contains(s[i]),
    decreases s.len(),
{
    reveal(Seq::filter);
    if s.len() > 0 {
        let init = s.drop_last();
        let out = s.filter(keep);
        let before = init.filter(keep);
        filter_members(init, keep);
        assert forall|i: int| 0 <= i < out.len() implies keep(#[trigger] out[i]) && s.contains(
            out[i],
        ) by {
            if i < before.len() {
                assert(out[i] == before[i]);
                let j = choose|j: int| 0 <= j < init.len() && init[j] == before[i];
                assert(s[j] == out[i]);
            } else {
                assert(s[s.len() - 1] == out[i]);
            }
        }
        assert forall|i: int| 0 <= i < s.len() && keep(#[trigger] s[i]) implies out.contains(
            s[i],
        ) by {
            if i < init.len() {
                assert(init[i] == s[i]);
                let j = choose|j: int| 0 <= j < before.len() && before[j] == s[i];
                assert(out[j] == s[i]);
            } else {
                assert(out[out.len() - 1] == s[i]);
            }
        }
    }
}

/// A stored row replaces the rows of its key, and those of its entity at its time;
/// every other row stays.
pub proof fn stored_members<R: Version>(rows: Seq<R>, row: R, t: u64)
    ensures
        forall|r: R| #[trigger] stored(rows, row, t).contains(r) <==> r == row || (rows.contains(r)
            && r.spec_key() != row.spec_key() && !(r.spec_entity() == row.spec_entity() && time(r)
            == t)),
{
    let id = row.spec_entity();
    let a = without_version(rows, id, t);
    let b = without_key(a, row.spec_key());
    filter_members(rows, not_version::<R>(id, t));
    filter_members(a, not_key::<R>(row.spec_key()));
    let out = stored(rows, row, t);
    assert forall|r: R| #[trigger] out.contains(r) <==> r == row || (rows.contains(r)
        && r.spec_key() != row.spec_key() && !(r.spec_entity() == row.spec_entity() && time(r)
        == t)) by {
        if out.contains(r) {
            let i = choose|i: int| 0 <= i < out.len() && out[i] == r;
            if i < b.len() {
                assert(b[i] == r);
                let j = choose|j: int| 0 <= j < a.len() && a[j] == b[i];
                assert(rows.contains(a[j]));
            }
        }
        if r == row {
            assert(out[out.len() - 1] == r);
        }
        if rows.contains(r) && r.spec_key() != row.spec_key() && !(r.spec_entity()
            == row.spec_entity() && time(r) == t) {
            let i = choose|i: int| 0 <= i < rows.len() && rows[i] == r;
            assert(a.contains(rows[i]));
            let j = choose|j: int| 0 <= j < a.len() && a[j] == r;
            assert(b.contains(a[j]));
            let k = choose|k: int| 0 <= k < b.len() && b[k] == r;
            assert(out[k] == r);
        }
    }
}

/// A store keeps the table free of doubled versions.
pub proof fn store_keeps_distinct<R: Version>(rows: Seq<R>, row: R, t: u64)
    requires
        distinct_versions(rows),
        time(row) == t,
    ensures
        distinct_versions(stored(rows, row, t)),
{
    let id = row.spec_entity();
    let a = without_version(rows, id, t);
    let b = without_key(a, row.spec_key());
    lemma_filter_distinct(rows, not_version::<R>(id, t));
    filter_members(rows, not_version::<R>(id, t));
    lemma_filter_distinct(a, not_key::<R>(row.spec_key()));
    filter_members(a, not_key::<R>(row.spec_key()));
    let out = stored(rows, row, t);
    assert forall|i: int, j: int|
        #![trigger out[i], out[j]]
        0 <= i < j < out.len() implies out[i].spec_key() != out[j].spec_key() && !(
    out[i].spec_entity() == out[j].spec_entity() && time(out[i]) == time(out[j])) by {
        assert(out[i] == b[i]);
        if j < b.len() {
            assert(out[j] == b[j]);
        } else {
            assert(out[j] == row);
            let k = choose|k: int| 0 <= k < a.len() && a[k] == b[i];
            assert(not_version::<R>(id, t)(a[k]));
        }
    }
}

proof fn lemma_filter_distinct<R: Version>(rows: Seq<R>, keep: spec_fn(R) -> bool)
    requires
        distinct_versions(rows),
    ensures
        distinct_versions(rows.filter(keep)),
    decreases rows.len(),
{
    reveal(Seq::filter);
    if rows.len() > 0 {
        let init = rows.drop_last();
        let before = init.filter(keep);
        let out = rows.filter(keep);
        assert(distinct_versions(init)) by {
            assert forall|i: int, j: int|
                #![trigger init[i], init[j]]
                0 <= i < j < init.len() implies init[i].spec_key() != init[j].spec_key() && !(
            init[i].spec_entity() == init[j].spec_entity() && time(init[i]) == time(init[j])) by {
                assert(init[i] == rows[i] && init[j] == rows[j]);
            }
        }
        lemma_filter_distinct(init, keep);
        filter_members(init, keep);
        assert forall|i: int, j: int|
            #![trigger out[i], out[j]]
            0 <= i < j < out.len() implies out[i].spec_key() != out[j].spec_key() && !(
        out[i].spec_entity() == out[j].spec_entity() && time(out[i]) == time(out[j])) by {
            assert(out[i] == before[i]);
            if j < before.len() {
                assert(out[j] == before[j]);
            } else {
                assert(out[j] == rows.last());
                let k = choose|k: int| 0 <= k < init.len() && init[k] == before[i];
                assert(rows[k] == before[i]);
                assert(rows[rows.len() - 1] == out[j]);
            }
        }
    }
}

/// The last write at a time wins: it is what a read at that time finds.
pub proof fn read_over_write<R: Version>(rows: Seq<R>, row: R, t: u64)
    requires
        distinct_versions(rows),
        time(row) == t,
    ensures
        prior_at(stored(rows, row, t), row.spec_entity(), t) == Some(row),
{
    let out = stored(rows, row, t);
    store_keeps_distinct(rows, row, t);
    stored_members(rows, row, t);
    assert(out.contains(row));
    prior_at_unique(out, row.spec_entity(), t, row);
}

/// A write under a free key is seen neither by reads of other entities nor by
/// reads of an earlier time.
pub proof fn write_leaves_the_rest<R: Version>(rows: Seq<R>, row: R, t: u64, id: u32, at: u64)
    requires
        distinct_versions(rows),
        key_free(rows, row.spec_key()),
        time(row) == t,
        id != row.spec_entity() || at < t,
    ensures
        prior_at(stored(rows, row, t), id, at) == prior_at(rows, id, at),
{
    let out = stored(rows, row, t);
    store_keeps_distinct(rows, row, t);
    stored_members(rows, row, t);
    prior_at_is_greatest(rows, id, at);
    prior_at_is_greatest(out, id, at);
    match prior_at(rows, id, at) {
        Some(r) => {
            let k = choose|k: int| 0 <= k < rows.len() && rows[k] == r;
            assert(rows[k].spec_key() != row.spec_key());
            assert(out.contains(r));
            assert forall|i: int| 0 <= i < out.len() && covers(#[trigger] out[i], id, at) implies time(
                out[i],
            ) <= time(r) by {
                assert(out.contains(out[i]));
                let j = choose|j: int| 0 <= j < rows.len() && rows[j] == out[i];
                assert(covers(rows[j], id, at));
            }
            prior_at_unique(out, id, at, r);
        },
        None => {
            if let Some(r) = prior_at(out, id, at) {
                assert(out.contains(r));
                let j = choose|j: int| 0 <= j < rows.len() && rows[j] == r;
                assert(covers(rows[j], id, at));
            }
        },
    }
}

/// Rows that a read does not see can go.
pub proof fn unseen_rows_can_go<R: Version>(
    rows: Seq<R>,
    keep: spec_fn(R) -> bool,
    id: u32,
    at: u64,
)
    requires
        forall|i: int| 0 <= i < rows.len() && covers(#[trigger] rows[i], id, at) ==> keep(rows[i]),
    ensures
        prior_at(rows.filter(keep), id, at) == prior_at(rows, id, at),
    decreases rows.len(),
{
    reveal(Seq::filter);
    if rows.len() > 0 {
        let init = rows.drop_last();
        assert forall|i: int| 0 <= i < init.len() && covers(#[trigger] init[i], id, at) implies keep(
            init[i],
        ) by {
            assert(init[i] == rows[i]);
        }
        unseen_rows_can_go(init, keep, id, at);
        assert(rows[rows.len() - 1] == rows.last());
        if keep(rows.last()) {
            assert(init.filter(keep).push(rows.last()).drop_last() =~= init.filter(keep));
        }
    } else {
        assert(rows.filter(keep) =~= rows);
    }
}

/// A write does not reach back: what was in force before its time still is.
pub proof fn write_does_not_reach_back<R: Version>(rows: Seq<R>, row: R, t: u64, id: u32, at: u64)
    requires
        time(row) == t,
        at < t,
    ensures
        prior_at(stored(rows, row, t), id, at) == prior_at(rows, id, at),
{
    let a = without_version(rows, row.spec_entity(), t);
    let b = without_key(a, row.spec_key());
    unseen_rows_can_go(rows, not_version::<R>(row.spec_entity(), t), id, at);
    unseen_rows_can_go(a, not_key::<R>(row.spec_key()), id, at);
    assert(b.push(row).drop_last() =~= b);
}

/// Rewriting later versions of an entity changes no read up to then.
pub proof fn later_edits_are_unseen<R: Version>(
    rows: Seq<R>,
    entity: u32,
    t: u64,
    f: spec_fn(R) -> R,
    id: u32,
    at: u64,
)
    requires
        at <= t,
        forall|r: R| (#[trigger] f(r)).spec_entity() == r.spec_entity(),
        forall|r: R| (#[trigger] f(r)).spec_key() == r.spec_key(),
    ensures
        prior_at(on_future(rows, entity, t, f), id, at) == prior_at(rows, id, at),
    decreases rows.len(),
{
    if rows.len() > 0 {
        let init = rows.drop_last();
        later_edits_are_unseen(init, entity, t, f, id, at);
        let out = on_future(rows, entity, t, f);
        assert(out.drop_last() =~= on_future(init, entity, t, f));
        assert(out.last() == if rows.last().spec_entity() == entity && time(rows.last()) > t {
            f(rows.last())
        } else {
            rows.last()
        });
    }
}

/// Index of the version of `id` that starts next after `t`.
pub open spec fn next_version<R: Version>(rows: Seq<R>, id: u32, t: u64) -> Option<int>
    decreases rows.len(),
{
    if rows.len() == 0 {
        None
    } else {
        let found = next_version(rows.drop_last(), id, t);
        let row = rows.last();
        if row.spec_entity() == id && time(row) > t && (found matches Some(i) ==> time(row) < time(
            rows[i],
        )) {
            Some(rows.len() - 1)
        } else {
            found
        }
    }
}

/// What `next_version` finds is a later version of `id`, and none lies between.
pub proof fn next_version_is_least<R: Version>(rows: Seq<R>, id: u32, t: u64)
    ensures
        match next_version(rows, id, t) {
            Some(i) => 0 <= i < rows.len() && rows[i].spec_entity() == id && time(rows[i]) > t
                && forall|j: int|
                0 <= j < rows.len() && (#[trigger] rows[j]).spec_entity() == id && time(rows[j]) > t
                    ==> time(rows[i]) <= time(rows[j]),
            None => forall|j: int|
                0 <= j < rows.len() && (#[trigger] rows[j]).spec_entity() == id ==> time(rows[j])
                    <= t,
        },
    decreases rows.len(),
{
    if rows.len() > 0 {
        let init = rows.drop_last();
        next_version_is_least(init, id, t);
        assert forall|j: int| 0 <= j < init.len() implies #[trigger] init[j] == rows[j] by {}
        assert forall|j: int| 0 <= j < rows.len() - 1 implies #[trigger] rows[j] == init[j] by {}
    }
}

pub fn find_next_version<R: Version>(rows: &Vec<R>, id: u32, t: u64) -> (found: Option<usize>)
    ensures
        match found {
            Some(i) => next_version(rows@, id, t) == Some(i as int) && i < rows.len()
                && rows@[i as int].spec_entity() == id && time(rows@[i as int]) > t,
            None => next_version(rows@, id, t) is None,
        },
{
    let mut found: Option<usize> = None;
    let mut i: usize = 0;
    while i < rows.len()
        invariant
            i <= rows.len(),
            match found {
                Some(k) => next_version(rows@.take(i as int), id, t) == Some(k as int) && k < i
                    && rows@[k as int].spec_entity() == id && time(rows@[k as int]) > t,
                None => next_version(rows@.take(i as int), id, t) is None,
            },
        decreases rows.len() - i,
    {
        proof {
            let next = rows@.take(i + 1);
            assert(next.drop_last() =~= rows@.take(i as int));
            assert(next.last() == rows@[i as int]);
        }
        if rows[i].entity() == id && packed::valid_at_time(rows[i].key()) > t {
            match found {
                Some(k) => {
                    if packed::valid_at_time(rows[i].key()) < packed::valid_at_time(rows[k].key()) {
                        found = Some(i);
                    }
                },
                None => {
                    found = Some(i);
                },
            }
        }
        i = i + 1;
    }
    assert(rows@.take(rows.len() as int) =~= rows@);
    found
}

// ---- sweeping ------------------------------------------------------
/// The greatest key among the rows of `id`.
pub open spec fn max_key<R: Version>(rows: Seq<R>, id: u32) -> Option<u64>
    decreases rows.len(),
{
    if rows.len() == 0 {
        None
    } else {
        let before = max_key(rows.drop_last(), id);
        let row = rows.last();
        if row.spec_entity() == id && (before matches Some(k) ==> row.spec_key() > k) {
            Some(row.spec_key())
        } else {
            before
        }
    }
}

/// `row` carries the greatest key of its entity.
pub open spec fn is_newest<R: Version>(rows: Seq<R>, row: R) -> bool {
    max_key(rows, row.spec_entity()) == Some(row.spec_key())
}

pub open spec fn newest_in<R: Version>(rows: Seq<R>) -> spec_fn(R) -> bool {
    |r: R| is_newest(rows, r)
}

/// `rows` with only the newest version of each entity left.
pub open spec fn swept<R: Version>(rows: Seq<R>) -> Seq<R> {
    rows.filter(newest_in(rows))
}

/// The greatest key is that of some row, and no row of the entity exceeds it.
pub proof fn max_key_is_greatest<R: Version>(rows: Seq<R>, id: u32)
    ensures
        match max_key(rows, id) {
            Some(k) => (exists|i: int|
                0 <= i < rows.len() && (#[trigger] rows[i]).spec_entity() == id
                    && rows[i].spec_key() == k) && forall|i: int|
                0 <= i < rows.len() && (#[trigger] rows[i]).spec_entity() == id
                    ==> rows[i].spec_key() <= k,
            None => forall|i: int|
                0 <= i < rows.len() ==> (#[trigger] rows[i]).spec_entity() != id,
        },
    decreases rows.len(),
{
    if rows.len() > 0 {
        let init = rows.drop_last();
        max_key_is_greatest(init, id);
        assert(rows[rows.len() - 1] == rows.last());
        assert forall|i: int| 0 <= i < rows.len() - 1 implies #[trigger] rows[i] == init[i] by {}
        if let Some(k) = max_key(init, id) {
            let j = choose|j: int|
                0 <= j < init.len() && (#[trigger] init[j]).spec_entity() == id
                    && init[j].spec_key() == k;
            assert(rows[j] == init[j]);
        }
    }
}

/// The greatest key of every entity.
pub fn max_keys<R: Version>(rows: &Vec<R>) -> (m: HashMap<u32, u64>)
    ensures
        forall|id: u32|
            #![trigger m@.contains_key(id)]
            #![trigger max_key(rows@, id)]
            (m@.contains_key(id) <==> max_key(rows@, id) is Some) && (m@.contains_key(id)
                ==> max_key(rows@, id) == Some(m@[id])),
{
    let mut m: HashMap<u32, u64> = HashMap::new();
    let mut i: usize = 0;
    while i < rows.len()
        invariant
            i <= rows.len(),
            forall|id: u32|
                #![trigger m@.contains_key(id)]
                #![trigger max_key(rows@.take(i as int), id)]
                (m@.contains_key(id) <==> max_key(rows@.take(i as int), id) is Some) && (
                m@.contains_key(id) ==> max_key(rows@.take(i as int), id) == Some(m@[id])),
        decreases rows.len() - i,
    {
        let ghost before = m@;
        let ghost next = rows@.take(i + 1);
        proof {
            assert(next.drop_last() =~= rows@.take(i as int));
            assert(next.last() == rows@[i as int]);
        }
        let id: u32 = rows[i].entity();
        let k: u64 = rows[i].key();
        let newer: bool = match m.get(&id) {
            Some(old_key) => k > *old_key,
            None => true,
        };
        if newer {
            m.insert(id, k);
        }
        assert forall|x: u32|
            #![trigger m@.contains_key(x)]
            #![trigger max_key(next, x)]
            (m@.contains_key(x) <==> max_key(next, x) is Some) && (m@.contains_key(x)
                ==> max_key(next, x) == Some(m@[x])) by {
            let prev = max_key(rows@.take(i as int), x);
            assert(before.contains_key(x) <==> prev is Some);
            assert(before.contains_key(id) <==> max_key(rows@.take(i as int), id) is Some);
        }
        i = i + 1;
    }
    assert(rows@.take(rows.len() as int) =~= rows@);
    m
}

/// Reap every prior version: only the newest row of each entity stays.
pub fn sweep<R: Version>(rows: &mut Vec<R>)
    ensures
        final(rows)@ == swept(old(rows)@),
{
    let m = max_keys(rows);
    let ghost all = rows@;
    let ghost keep = newest_in(all);
    let ghost mut seen: int = 0;
    let mut i: usize = 0;
    proof {
        reveal(Seq::filter);
        assert(all.take(0).filter(keep) =~= Seq::empty());
        assert(rows@.take(0) =~= Seq::empty());
        assert(all.skip(0) =~= all);
        assert(rows@.skip(0) =~= all);
    }
    while i < rows.len()
        invariant
            i <= rows.len(),
            0 <= seen <= all.len(),
            keep == newest_in(all),
            forall|id: u32|
                #![trigger m@.contains_key(id)]
                #![trigger max_key(all, id)]
                (m@.contains_key(id) <==> max_key(all, id) is Some) && (m@.contains_key(id)
                    ==> max_key(all, id) == Some(m@[id])),
            rows@.take(i as int) == all.take(seen).filter(keep),
            rows@.skip(i as int) == all.skip(seen),
        decreases rows.len() - i,
    {
        let ghost before = rows@;
        proof {
            assert(rows@.skip(i as int).len() == all.skip(seen).len());
            assert(rows@.skip(i as int)[0] == rows@[i as int]);
            assert(all.skip(seen)[0] == all[seen]);
            filter_take_step(all, seen, keep);
            assert(all.skip(seen).skip(1) =~= all.skip(seen + 1));
            assert(before.skip(i as int).skip(1) =~= before.skip(i + 1));
        }
        let id: u32 = rows[i].entity();
        let newest: bool = match m.get(&id) {
            Some(k) => *k == rows[i].key(),
            None => false,
        };
        assert(newest == is_newest(all, before[i as int])) by {
            assert(m@.contains_key(id) <==> max_key(all, id) is Some);
        }
        if newest {
            i = i + 1;
            assert(rows@.take(i as int) =~= before.take(i - 1).push(before[i - 1]));
        } else {
            let _ = rows.remove(i);
            assert(rows@.take(i as int) =~= before.take(i as int));
            assert(rows@.skip(i as int) =~= before.skip(i + 1));
        }
        proof {
            seen = seen + 1;
        }
    }
    proof {
        assert(rows@.skip(i as int).len() == all.skip(seen).len());
        assert(all.take(seen) =~= all);
        assert(rows@.take(i as int) =~= rows@);
    }
}

/// A sweep leaves the newest row of every entity, and only those.
pub proof fn sweep_keeps_exactly_newest<R: Version>(rows: Seq<R>, row: R)
    ensures
        swept(rows).contains(row) <==> rows.contains(row) && is_newest(rows, row),
{
    filter_members(rows, newest_in(rows));
    let out = swept(rows);
    if out.contains(row) {
        let i = choose|i: int| 0 <= i < out.len() && out[i] == row;
        assert(newest_in(rows)(out[i]));
    }
    if rows.contains(row) && is_newest(rows, row) {
        let i = choose|i: int| 0 <= i < rows.len() && rows[i] == row;
        assert(newest_in(rows)(rows[i]));
    }
}

/// Sweeping does not change the latest row of any entity.
pub proof fn sweep_keeps_latest<R: Version>(rows: Seq<R>, id: u32)
    requires
        distinct_versions(rows),
    ensures
        latest(swept(rows), id) == latest(rows, id),
{
    let out = swept(rows);
    filter_members(rows, newest_in(rows));
    lemma_filter_distinct(rows, newest_in(rows));
    prior_at_is_greatest(rows, id, u64::MAX);
    prior_at_is_greatest(out, id, u64::MAX);
    max_key_is_greatest(rows, id);
    match latest(rows, id) {
        None => {
            if let Some(r) = latest(out, id) {
                assert(out.contains(r));
                sweep_keeps_exactly_newest(rows, r);
                let j = choose|j: int| 0 <= j < rows.len() && rows[j] == r;
                assert(covers(rows[j], id, u64::MAX));
            }
        },
        Some(r) => {
            let k = max_key(rows, id)->0;
            let i = choose|i: int|
                0 <= i < rows.len() && (#[trigger] rows[i]).spec_entity() == id
                    && rows[i].spec_key() == k;
            let j = choose|j: int| 0 <= j < rows.len() && rows[j] == r;
            assert(covers(rows[i], id, u64::MAX));
            assert(rows[j].spec_key() <= k);
            assert(time(rows[i]) <= time(rows[j]));
            assert(time(rows[i]) == time(rows[j]));
            if i < j {
                assert(rows[i].spec_key() != rows[j].spec_key());
            }
            if j < i {
                assert(rows[j].spec_key() != rows[i].spec_key());
            }
            assert(is_newest(rows, r));
            sweep_keeps_exactly_newest(rows, r);
            assert forall|x: int| 0 <= x < out.len() && covers(#[trigger] out[x], id, u64::MAX) implies time(
                out[x],
            ) <= time(r) by {
                assert(out.contains(out[x]));
                let y = choose|y: int| 0 <= y < rows.len() && rows[y] == out[x];
                assert(covers(rows[y], id, u64::MAX));
            }
            prior_at_unique(out, id, u64::MAX, r);
        },
    }
}

/// Storing the first version of an entity appends it.
pub proof fn store_appends<R: Version>(rows: Seq<R>, row: R, t: u64)
    requires
        forall|i: int|
            0 <= i < rows.len() ==> (#[trigger] rows[i]).spec_entity() != row.spec_entity(),
        key_free(rows, row.spec_key()),
    ensures
        stored(rows, row, t) == rows.push(row),
{
    lemma_filter_all(rows, not_version::<R>(row.spec_entity(), t));
    lemma_filter_all(rows, not_key::<R>(row.spec_key()));
}

proof fn lemma_filter_all<A>(rows: Seq<A>, keep: spec_fn(A) -> bool)
    requires
        forall|i: int| 0 <= i < rows.len() ==> keep(#[trigger] rows[i]),
    ensures
        rows.filter(keep) == rows,
    decreases rows.len(),
{
    reveal(Seq::filter);
    if rows.len() > 0 {
        let init = rows.drop_last();
        assert forall|i: int| 0 <= i < init.len() implies keep(#[trigger] init[i]) by {
            assert(init[i] == rows[i]);
        }
        lemma_filter_all(init, keep);
        assert(rows[rows.len() - 1] == rows.last());
        assert(init.push(rows.last()) =~= rows);
    } else {
        assert(rows.filter(keep) =~= rows);
    }
}

/// A version stored at `t` whose change `f` also reaches every later version is
/// seen from `t` on: a read finds the stored row until the next version, and then
/// the changed versions. Reads before `t`, and of other entities, find what they
/// found before.
pub proof fn change_from_a_time<R: Version>(
    rows: Seq<R>,
    row: R,
    t: u64,
    f: spec_fn(R) -> R,
    id: u32,
    at: u64,
)
    requires
        distinct_versions(rows),
        key_free(rows, row.spec_key()),
        time(row) == t,
        forall|r: R| (#[trigger] f(r)).spec_entity() == r.spec_entity(),
        forall|r: R| (#[trigger] f(r)).spec_key() == r.spec_key(),
    ensures
        distinct_versions(on_future(stored(rows, row, t), row.spec_entity(), t, f)),
        prior_at(on_future(stored(rows, row, t), row.spec_entity(), t, f), id, at) == if id
            != row.spec_entity() || at < t {
            prior_at(rows, id, at)
        } else {
            match prior_at(rows, id, at) {
                Some(p) => if time(p) > t {
                    Some(f(p))
                } else {
                    Some(row)
                },
                None => Some(row),
            }
        },
{
    let entity = row.spec_entity();
    let mid = stored(rows, row, t);
    let out = on_future(mid, entity, t, f);
    store_keeps_distinct(rows, row, t);
    stored_members(rows, row, t);
    assert forall|i: int, j: int|
        #![trigger out[i], out[j]]
        0 <= i < j < out.len() implies out[i].spec_key() != out[j].spec_key() && !(
    out[i].spec_entity() == out[j].spec_entity() && time(out[i]) == time(out[j])) by {
        assert(mid[i].spec_key() != mid[j].spec_key());
    }
    prior_at_is_greatest(rows, id, at);
    if id != entity || at < t {
        write_leaves_the_rest(rows, row, t, id, at);
        prior_at_is_greatest(mid, id, at);
        prior_at_is_greatest(out, id, at);
        match prior_at(mid, id, at) {
            None => {
                assert forall|i: int| 0 <= i < out.len() implies !covers(
                    #[trigger] out[i],
                    id,
                    at,
                ) by {
                    assert(!covers(mid[i], id, at));
                }
            },
            Some(p) => {
                let k = choose|k: int| 0 <= k < mid.len() && mid[k] == p;
                assert(out[k] == p);
                assert forall|i: int| 0 <= i < out.len() && covers(
                    #[trigger] out[i],
                    id,
                    at,
                ) implies time(out[i]) <= time(p) by {
                    assert(covers(mid[i], id, at));
                }
                prior_at_unique(out, id, at, p);
            },
        }
    } else {
        let found = match prior_at(rows, id, at) {
            Some(p) => if time(p) > t {
                f(p)
            } else {
                row
            },
            None => row,
        };
        let source = match prior_at(rows, id, at) {
            Some(p) => if time(p) > t {
                p
            } else {
                row
            },
            None => row,
        };
        assert(mid.contains(source));
        let k = choose|k: int| 0 <= k < mid.len() && mid[k] == source;
        assert(out[k] == found);
        assert forall|i: int| 0 <= i < out.len() && covers(#[trigger] out[i], id, at) implies time(
            out[i],
        ) <= time(found) by {
            assert(covers(mid[i], id, at));
            assert(mid.contains(mid[i]));
        }
        prior_at_unique(out, id, at, found);
    }
}

/// Storing a row takes no key but its own.
pub proof fn store_keeps_key_free<R: Version>(rows: Seq<R>, row: R, t: u64, key: u64)
    requires
        key_free(rows, key),
        row.spec_key() != key,
    ensures
        key_free(stored(rows, row, t), key),
{
    let out = stored(rows, row, t);
    stored_members(rows, row, t);
    assert forall|i: int| 0 <= i < out.len() implies (#[trigger] out[i]).spec_key() != key by {
        assert(out.contains(out[i]));
        if out[i] != row {
            let k = choose|k: int| 0 <= k < rows.len() && rows[k] == out[i];
            assert(rows[k].spec_key() != key);
        }
    }
}

} // verus!
