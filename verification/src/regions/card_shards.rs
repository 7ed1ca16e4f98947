//! Card-shard subscription index: how many cards of each card shard stand in
//! this database's zones, as a versioned count.
use vstd::prelude::*;

use crate::history;
use crate::history::Version;
use crate::packed;
use crate::tables;

verus! {

/// A version of the count of one card shard.
#[derive(Clone, Copy, Debug, PartialEq, Eq, Structural)]
pub struct CardShard {
    pub valid_at: u64,
    pub data_shard: u16,
    pub ref_count: u32,
}

impl Version for CardShard {
    open spec fn spec_entity(self) -> u32 {
        self.data_shard as u32
    }

    open spec fn spec_key(self) -> u64 {
        self.valid_at
    }

    fn entity(&self) -> (id: u32) {
        self.data_shard as u32
    }

    fn key(&self) -> (k: u64) {
        self.valid_at
    }
}

/// The count of a shard in force at `t`, `0` where there is none.
pub open spec fn count_at(rows: Seq<CardShard>, data_shard: u16, t: u64) -> u32 {
    match history::prior_at(rows, data_shard as u32, t) {
        Some(r) => r.ref_count,
        None => 0,
    }
}

/// The row that a count write at `t` stores.
pub open spec fn count_row(seq: u16, data_shard: u16, ref_count: u32, t: u64) -> CardShard {
    CardShard { valid_at: packed::valid_at_key(t, seq), data_shard, ref_count }
}

/// One more reference, saturating.
pub open spec fn one_more(n: u32) -> u32 {
    if n == u32::MAX {
        n
    } else {
        (n + 1) as u32
    }
}

/// One reference less, floored at zero.
pub open spec fn one_less(n: u32) -> u32 {
    if n == 0 {
        0
    } else {
        (n - 1) as u32
    }
}

fn latest_at(rows: &Vec<CardShard>, data_shard: u16, time_ms: u64) -> (n: u32)
    ensures
        n == count_at(rows@, data_shard, time_ms),
{
    match history::find_prior_at(rows, data_shard as u32, time_ms) {
        Some(r) => r.ref_count,
        None => 0,
    }
}

fn write_at(
    rows: &mut Vec<CardShard>,
    seq: &mut u16,
    data_shard: u16,
    ref_count: u32,
    time_ms: u64,
)
    ensures
        final(rows)@ == history::stored(
            old(rows)@,
            count_row(*old(seq), data_shard, ref_count, time_ms),
            time_ms,
        ),
        *final(seq) == tables::sequence_after(*old(seq)),
{
    let taken: u16 = tables::advance(seq);
    let row = CardShard {
        valid_at: packed::pack_valid_at(time_ms, taken),
        data_shard,
        ref_count,
    };
    history::store(rows, row, time_ms);
}

/// A card of `data_shard` came into this database's zones at `time_ms`.
pub fn acquire_card_shard(
    rows: &mut Vec<CardShard>,
    seq: &mut u16,
    time_ms: u64,
    data_shard: u16,
)
    ensures
        final(rows)@ == history::stored(
            old(rows)@,
            count_row(
                *old(seq),
                data_shard,
                one_more(count_at(old(rows)@, data_shard, time_ms)),
                time_ms,
            ),
            time_ms,
        ),
        *final(seq) == tables::sequence_after(*old(seq)),
{
    let prior: u32 = latest_at(rows, data_shard, time_ms);
    let next: u32 = if prior == u32::MAX {
        prior
    } else {
        prior + 1
    };
    write_at(rows, seq, data_shard, next, time_ms);
}

/// A card of `data_shard` left this database's zones at `time_ms`. The row stays
/// at `0`, so that the timeline shows when the shard went empty here.
pub fn release_card_shard(
    rows: &mut Vec<CardShard>,
    seq: &mut u16,
    time_ms: u64,
    data_shard: u16,
)
    ensures
        final(rows)@ == history::stored(
            old(rows)@,
            count_row(
                *old(seq),
                data_shard,
                one_less(count_at(old(rows)@, data_shard, time_ms)),
                time_ms,
            ),
            time_ms,
        ),
        *final(seq) == tables::sequence_after(*old(seq)),
{
    let prior: u32 = latest_at(rows, data_shard, time_ms);
    let next: u32 = if prior == 0 {
        0
    } else {
        prior - 1
    };
    write_at(rows, seq, data_shard, next, time_ms);
}

/// A count written at `t` is what a read at `t` finds, and an acquire followed by
/// a release at one time gives the old count back (short of saturation).
pub proof fn acquire_then_release(
    rows: Seq<CardShard>,
    data_shard: u16,
    t: u64,
    seq: u16,
    seq2: u16,
)
    requires
        history::distinct_versions(rows),
        t < packed::TIME_RADIX,
        count_at(rows, data_shard, t) < u32::MAX,
    ensures
        ({
            let n = count_at(rows, data_shard, t);
            let up = history::stored(rows, count_row(seq, data_shard, one_more(n), t), t);
            let down = history::stored(
                up,
                count_row(seq2, data_shard, one_less(count_at(up, data_shard, t)), t),
                t,
            );
            &&& count_at(up, data_shard, t) == n + 1
            &&& count_at(down, data_shard, t) == n
        }),
{
    let n = count_at(rows, data_shard, t);
    let a = count_row(seq, data_shard, one_more(n), t);
    packed::valid_at_round_trip(t, seq);
    packed::valid_at_round_trip(t, seq2);
    history::read_over_write(rows, a, t);
    history::store_keeps_distinct(rows, a, t);
    let up = history::stored(rows, a, t);
    let b = count_row(seq2, data_shard, one_less(count_at(up, data_shard, t)), t);
    history::read_over_write(up, b, t);
}

} // verus!
