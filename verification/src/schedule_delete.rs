//! Deferred deletion of superseded versions.
//!
//! Each write schedules a one-shot sweep of the versions before it. The sweep
//! fires a while after the written row came into force, so that no reader whose
//! clock runs behind loses its current row. At most one sweep per card is pending.
use vstd::prelude::*;

use crate::history;
use crate::history::Version;
use crate::packed;
use crate::tables::Db;
use crate::tables::Tables;

verus! {

/// Time between the cutoff of a sweep and its firing.
pub const DELETE_DELAY_MS: u64 = 5_000;

/// When a schedule fires.
#[derive(Clone, Copy, Debug, PartialEq, Eq, Structural)]
pub enum FireAt {
    /// Once, at a time in milliseconds.
    Time { ms: u64 },
    Interval,
}

/// A scheduled sweep of one card's versions.
#[derive(Clone, Copy, Debug, PartialEq, Eq, Structural)]
pub struct ScheduleDelete {
    pub delete_id: u64,
    pub card_id: u32,
    pub scheduled_at: FireAt,
}

/// The firing time for a row stored under `valid_at`.
pub open spec fn fire_time(valid_at: u64) -> u64 {
    let t = packed::time_of(valid_at) + DELETE_DELAY_MS;
    if t > u64::MAX {
        u64::MAX
    } else {
        t as u64
    }
}

/// The row is a one-shot sweep of the card that fires at `ms` or later.
pub open spec fn covers(s: ScheduleDelete, card_id: u32, ms: u64) -> bool {
    s.card_id == card_id && (s.scheduled_at matches FireAt::Time { ms: t } && t >= ms)
}

/// Some pending sweep of the card fires at `ms` or later.
pub open spec fn covered(rows: Seq<ScheduleDelete>, card_id: u32, ms: u64) -> bool {
    exists|i: int| 0 <= i < rows.len() && covers(#[trigger] rows[i], card_id, ms)
}

pub open spec fn not_one_shot_of(card_id: u32) -> spec_fn(ScheduleDelete) -> bool {
    |s: ScheduleDelete| !(s.card_id == card_id && s.scheduled_at is Time)
}

/// The schedule after a write: a later sweep already covers it, or every pending
/// sweep of the card gives way to one new sweep.
pub open spec fn enqueued(
    rows: Seq<ScheduleDelete>,
    card_id: u32,
    valid_at: u64,
    delete_id: u64,
) -> Seq<ScheduleDelete> {
    let ms = fire_time(valid_at);
    if covered(rows, card_id, ms) {
        rows
    } else {
        rows.filter(not_one_shot_of(card_id)).push(
            ScheduleDelete { delete_id, card_id, scheduled_at: FireAt::Time { ms } },
        )
    }
}

fn is_covered(rows: &Vec<ScheduleDelete>, card_id: u32, ms: u64) -> (r: bool)
    ensures
        r == covered(rows@, card_id, ms),
{
    let mut i: usize = 0;
    while i < rows.len()
        invariant
            i <= rows.len(),
            forall|j: int| 0 <= j < i ==> !covers(#[trigger] rows@[j], card_id, ms),
        decreases rows.len() - i,
    {
        let s = rows[i];
        if s.card_id == card_id {
            if let FireAt::Time { ms: t } = s.scheduled_at {
                if t >= ms {
                    assert(covers(rows@[i as int], card_id, ms));
                    return true;
                }
            }
        }
        i = i + 1;
    }
    false
}

/// Schedule the sweep that follows a write of `card_id` stored under `valid_at`.
/// `delete_id` is a fresh schedule id.
pub fn enqueue(rows: &mut Vec<ScheduleDelete>, card_id: u32, valid_at: u64, delete_id: u64)
    ensures
        final(rows)@ == enqueued(old(rows)@, card_id, valid_at, delete_id),
{
    let t: u64 = packed::valid_at_time(valid_at);
    let ms: u64 = if t > u64::MAX - DELETE_DELAY_MS {
        u64::MAX
    } else {
        t + DELETE_DELAY_MS
    };
    if is_covered(rows, card_id, ms) {
        return ;
    }
    let ghost all = rows@;
    let ghost keep = not_one_shot_of(card_id);
    let mut kept: Vec<ScheduleDelete> = Vec::new();
    let mut i: usize = 0;
    proof {
        reveal(Seq::filter);
        assert(all.take(0).filter(keep) =~= Seq::empty());
    }
    while i < rows.len()
        invariant
            i <= rows.len(),
            rows@ == all,
            keep == not_one_shot_of(card_id),
            kept@ == all.take(i as int).filter(keep),
        decreases rows.len() - i,
    {
        let s = rows[i];
        proof {
            history::filter_take_step(all, i as int, keep);
        }
        let one_shot: bool = s.card_id == card_id && match s.scheduled_at {
            FireAt::Time { .. } => true,
            FireAt::Interval => false,
        };
        if !one_shot {
            kept.push(s);
        }
        i = i + 1;
    }
    assert(all.take(all.len() as int) =~= all);
    kept.push(ScheduleDelete { delete_id, card_id, scheduled_at: FireAt::Time { ms } });
    *rows = kept;
}

/// The row is not a version of `id` from before `cutoff`.
pub open spec fn kept_by<R: Version>(id: u32, cutoff: u64) -> spec_fn(R) -> bool {
    |r: R| !(r.spec_entity() == id && history::time(r) < cutoff)
}

pub open spec fn other_schedule(delete_id: u64) -> spec_fn(ScheduleDelete) -> bool {
    |s: ScheduleDelete| s.delete_id != delete_id
}

/// The cutoff of a sweep that fires at `ms`.
pub open spec fn cutoff(ms: u64) -> u64 {
    if ms > DELETE_DELAY_MS {
        (ms - DELETE_DELAY_MS) as u64
    } else {
        0
    }
}

fn drop_versions<R: Version + Copy>(rows: &mut Vec<R>, id: u32, before: u64)
    ensures
        final(rows)@ == old(rows)@.filter(kept_by::<R>(id, before)),
{
    let ghost all = rows@;
    let ghost keep = kept_by::<R>(id, before);
    let mut kept: Vec<R> = Vec::new();
    let mut i: usize = 0;
    proof {
        reveal(Seq::filter);
        assert(all.take(0).filter(keep) =~= Seq::empty());
    }
    while i < rows.len()
        invariant
            i <= rows.len(),
            rows@ == all,
            keep == kept_by::<R>(id, before),
            kept@ == all.take(i as int).filter(keep),
        decreases rows.len() - i,
    {
        proof {
            history::filter_take_step(all, i as int, keep);
        }
        if !(rows[i].entity() == id && packed::valid_at_time(rows[i].key()) < before) {
            kept.push(rows[i]);
        }
        i = i + 1;
    }
    assert(all.take(all.len() as int) =~= all);
    *rows = kept;
}

fn drop_schedule(rows: &mut Vec<ScheduleDelete>, delete_id: u64)
    ensures
        final(rows)@ == old(rows)@.filter(other_schedule(delete_id)),
{
    let ghost all = rows@;
    let ghost keep = other_schedule(delete_id);
    let mut kept: Vec<ScheduleDelete> = Vec::new();
    let mut i: usize = 0;
    proof {
        reveal(Seq::filter);
        assert(all.take(0).filter(keep) =~= Seq::empty());
    }
    while i < rows.len()
        invariant
            i <= rows.len(),
            rows@ == all,
            keep == other_schedule(delete_id),
            kept@ == all.take(i as int).filter(keep),
        decreases rows.len() - i,
    {
        let s = rows[i];
        proof {
            history::filter_take_step(all, i as int, keep);
        }
        if s.delete_id != delete_id {
            kept.push(s);
        }
        i = i + 1;
    }
    assert(all.take(all.len() as int) =~= all);
    *rows = kept;
}

/// Fire a sweep of the cards table: the versions of the card from before the
/// cutoff go, and so does the schedule row. A periodic schedule does nothing.
pub fn delete_cards(tb: &mut Tables, rows: &mut Vec<ScheduleDelete>, args: ScheduleDelete)
    ensures
        match args.scheduled_at {
            FireAt::Interval => final(tb)@ == old(tb)@ && final(rows)@ == old(rows)@,
            FireAt::Time { ms } => {
                &&& final(tb)@ == (Db {
                    cards: old(tb)@.cards.filter(kept_by(args.card_id, cutoff(ms))),
                    ..old(tb)@
                })
                &&& final(rows)@ == old(rows)@.filter(other_schedule(args.delete_id))
            },
        },
{
    match args.scheduled_at {
        FireAt::Interval => {},
        FireAt::Time { ms } => {
            let before: u64 = if ms > DELETE_DELAY_MS {
                ms - DELETE_DELAY_MS
            } else {
                0
            };
            drop_versions(&mut tb.cards, args.card_id, before);
            drop_schedule(rows, args.delete_id);
        },
    }
}

/// Fire a sweep of the souls table.
pub fn delete_souls(tb: &mut Tables, rows: &mut Vec<ScheduleDelete>, args: ScheduleDelete)
    ensures
        match args.scheduled_at {
            FireAt::Interval => final(tb)@ == old(tb)@ && final(rows)@ == old(rows)@,
            FireAt::Time { ms } => {
                &&& final(tb)@ == (Db {
                    souls: old(tb)@.souls.filter(kept_by(args.card_id, cutoff(ms))),
                    ..old(tb)@
                })
                &&& final(rows)@ == old(rows)@.filter(other_schedule(args.delete_id))
            },
        },
{
    match args.scheduled_at {
        FireAt::Interval => {},
        FireAt::Time { ms } => {
            let before: u64 = if ms > DELETE_DELAY_MS {
                ms - DELETE_DELAY_MS
            } else {
                0
            };
            drop_versions(&mut tb.souls, args.card_id, before);
            drop_schedule(rows, args.delete_id);
        },
    }
}

// ---- laws ----------------------------------------------------------
/// No card has two pending one-shot sweeps.
pub open spec fn coalesced(rows: Seq<ScheduleDelete>) -> bool {
    forall|i: int, j: int|
        #![trigger rows[i], rows[j]]
        0 <= i < j < rows.len() && rows[i].scheduled_at is Time && rows[j].scheduled_at is Time
            ==> rows[i].card_id != rows[j].card_id
}

proof fn lemma_filter_coalesced(rows: Seq<ScheduleDelete>, keep: spec_fn(ScheduleDelete) -> bool)
    requires
        coalesced(rows),
    ensures
        coalesced(rows.filter(keep)),
    decreases rows.len(),
{
    reveal(Seq::filter);
    if rows.len() > 0 {
        let init = rows.drop_last();
        assert forall|i: int, j: int|
            #![trigger init[i], init[j]]
            0 <= i < j < init.len() && init[i].scheduled_at is Time
                && init[j].scheduled_at is Time implies init[i].card_id != init[j].card_id by {
            assert(init[i] == rows[i] && init[j] == rows[j]);
        }
        lemma_filter_coalesced(init, keep);
        history::filter_members(init, keep);
        let before = init.filter(keep);
        let out = rows.filter(keep);
        assert forall|i: int, j: int|
            #![trigger out[i], out[j]]
            0 <= i < j < out.len() && out[i].scheduled_at is Time
                && out[j].scheduled_at is Time implies out[i].card_id != out[j].card_id by {
            assert(out[i] == before[i]);
            if j < before.len() {
                assert(out[j] == before[j]);
            } else {
                let k = choose|k: int| 0 <= k < init.len() && init[k] == before[i];
                assert(rows[k] == before[i]);
                assert(rows[rows.len() - 1] == out[j]);
            }
        }
    }
}

/// Scheduling keeps at most one pending sweep per card, and one that fires no
/// earlier than the write asked for.
pub proof fn schedules_coalesce(
    rows: Seq<ScheduleDelete>,
    card_id: u32,
    valid_at: u64,
    delete_id: u64,
)
    requires
        coalesced(rows),
    ensures
        coalesced(enqueued(rows, card_id, valid_at, delete_id)),
        covered(enqueued(rows, card_id, valid_at, delete_id), card_id, fire_time(valid_at)),
{
    let ms = fire_time(valid_at);
    if !covered(rows, card_id, ms) {
        let keep = not_one_shot_of(card_id);
        let kept = rows.filter(keep);
        let out = enqueued(rows, card_id, valid_at, delete_id);
        lemma_filter_coalesced(rows, keep);
        history::filter_members(rows, keep);
        assert forall|i: int, j: int|
            #![trigger out[i], out[j]]
            0 <= i < j < out.len() && out[i].scheduled_at is Time
                && out[j].scheduled_at is Time implies out[i].card_id != out[j].card_id by {
            assert(out[i] == kept[i]);
            if j < kept.len() {
                assert(out[j] == kept[j]);
            } else {
                assert(keep(kept[i]));
            }
        }
        assert(covers(out[out.len() - 1], card_id, ms));
    }
}

/// The sweep that a write schedules spares the written row.
pub proof fn sweep_spares_the_written_row<R: Version>(row: R)
    ensures
        kept_by::<R>(row.spec_entity(), cutoff(fire_time(row.spec_key())))(row),
{
}

/// A sweep that has fired is no longer scheduled; every other sweep is.
pub proof fn fired_sweeps_are_done(rows: Seq<ScheduleDelete>, delete_id: u64, s: ScheduleDelete)
    requires
        rows.contains(s),
    ensures
        rows.filter(other_schedule(delete_id)).contains(s) <==> s.delete_id != delete_id,
{
    let keep = other_schedule(delete_id);
    history::filter_members(rows, keep);
    let out = rows.filter(keep);
    let i = choose|i: int| 0 <= i < rows.len() && rows[i] == s;
    if out.contains(s) {
        let k = choose|k: int| 0 <= k < out.len() && out[k] == s;
        assert(keep(out[k]));
    }
    if s.delete_id != delete_id {
        assert(keep(rows[i]));
    }
}

} // verus!
