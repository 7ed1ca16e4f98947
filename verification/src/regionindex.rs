//! The index that tells which regions shard holds a region.
use vstd::prelude::*;

use crate::history;

verus! {

/// Partition of this index.
pub const DATA_SHARD: u16 = 0;

/// The shard of one region.
#[derive(Clone, Copy, Debug, PartialEq, Eq, Structural)]
pub struct RegionShard {
    pub macro_region: u64,
    pub data_shard: u16,
}

/// No region has two rows.
pub open spec fn unique_regions(rows: Seq<RegionShard>) -> bool {
    forall|i: int, j: int|
        #![trigger rows[i], rows[j]]
        0 <= i < j < rows.len() ==> rows[i].macro_region != rows[j].macro_region
}

pub open spec fn other_region(macro_region: u64) -> spec_fn(RegionShard) -> bool {
    |r: RegionShard| r.macro_region != macro_region
}

/// The index after assigning a region: its row, if any, gives way to a new one.
pub open spec fn assigned(rows: Seq<RegionShard>, macro_region: u64, data_shard: u16) -> Seq<
    RegionShard,
> {
    rows.filter(other_region(macro_region)).push(RegionShard { macro_region, data_shard })
}

/// The shard of a region: that of its first row.
pub open spec fn shard_for(rows: Seq<RegionShard>, macro_region: u64) -> Option<u16>
    decreases rows.len(),
{
    if rows.len() == 0 {
        None
    } else if rows[0].macro_region == macro_region {
        Some(rows[0].data_shard)
    } else {
        shard_for(rows.skip(1), macro_region)
    }
}

/// Assign, or reassign, a region to a shard. The latest assignment wins.
pub fn assign_region(rows: &mut Vec<RegionShard>, macro_region: u64, data_shard: u16)
    ensures
        final(rows)@ == assigned(old(rows)@, macro_region, data_shard),
{
    let mut kept: Vec<RegionShard> = Vec::new();
    let mut i: usize = 0;
    let ghost all = rows@;
    let ghost keep = other_region(macro_region);
    proof {
        reveal(Seq::filter);
        assert(all.take(0).filter(keep) =~= Seq::empty());
    }
    while i < rows.len()
        invariant
            i <= rows.len(),
            rows@ == all,
            keep == other_region(macro_region),
            kept@ == all.take(i as int).filter(keep),
        decreases rows.len() - i,
    {
        let row = rows[i];
        proof {
            history::filter_take_step(all, i as int, keep);
        }
        if row.macro_region != macro_region {
            kept.push(row);
        }
        i = i + 1;
    }
    assert(all.take(all.len() as int) =~= all);
    kept.push(RegionShard { macro_region, data_shard });
    *rows = kept;
}

/// The shard that holds a region, if assigned.
pub fn shard_of(rows: &Vec<RegionShard>, macro_region: u64) -> (shard: Option<u16>)
    ensures
        shard == shard_for(rows@, macro_region),
{
    let mut i: usize = 0;
    assert(rows@.skip(0) =~= rows@);
    while i < rows.len()
        invariant
            i <= rows.len(),
            shard_for(rows@, macro_region) == shard_for(rows@.skip(i as int), macro_region),
        decreases rows.len() - i,
    {
        assert(rows@.skip(i as int)[0] == rows@[i as int]);
        assert(rows@.skip(i as int).skip(1) =~= rows@.skip(i + 1));
        if rows[i].macro_region == macro_region {
            return Some(rows[i].data_shard);
        }
        i = i + 1;
    }
    None
}

// ---- laws ----------------------------------------------------------
/// The latest assignment of a region is the one that reads back; every other
/// region reads as before.
pub proof fn latest_assignment_wins(
    rows: Seq<RegionShard>,
    macro_region: u64,
    data_shard: u16,
    other: u64,
)
    ensures
        shard_for(assigned(rows, macro_region, data_shard), macro_region) == Some(data_shard),
        other != macro_region ==> shard_for(assigned(rows, macro_region, data_shard), other)
            == shard_for(rows, other),
{
    let row = RegionShard { macro_region, data_shard };
    let kept = rows.filter(other_region(macro_region));
    kept_lookup(rows, macro_region, macro_region);
    kept_lookup(rows, macro_region, other);
    push_lookup(kept, row, macro_region);
    push_lookup(kept, row, other);
}

proof fn push_lookup(rows: Seq<RegionShard>, row: RegionShard, wanted: u64)
    ensures
        shard_for(rows.push(row), wanted) == match shard_for(rows, wanted) {
            Some(s) => Some(s),
            None => if row.macro_region == wanted {
                Some(row.data_shard)
            } else {
                None
            },
        },
    decreases rows.len(),
{
    reveal_with_fuel(shard_for, 2);
    if rows.len() > 0 {
        assert(rows.push(row).skip(1) =~= rows.skip(1).push(row));
        push_lookup(rows.skip(1), row, wanted);
    } else {
        assert(rows.push(row).skip(1) =~= Seq::empty());
    }
}

proof fn kept_lookup(rows: Seq<RegionShard>, removed: u64, wanted: u64)
    ensures
        shard_for(rows.filter(other_region(removed)), wanted) == if wanted == removed {
            None
        } else {
            shard_for(rows, wanted)
        },
    decreases rows.len(),
{
    reveal(Seq::filter);
    if rows.len() > 0 {
        let init = rows.drop_last();
        kept_lookup(init, removed, wanted);
        push_lookup(init, rows.last(), wanted);
        assert(init.push(rows.last()) =~= rows);
        if rows.last().macro_region != removed {
            push_lookup(init.filter(other_region(removed)), rows.last(), wanted);
            assert(rows.filter(other_region(removed)) =~= init.filter(other_region(removed)).push(
                rows.last(),
            ));
        }
    } else {
        assert(rows.filter(other_region(removed)) =~= Seq::empty());
    }
}

/// Assigning keeps one row per region.
pub proof fn assigning_keeps_regions_unique(
    rows: Seq<RegionShard>,
    macro_region: u64,
    data_shard: u16,
)
    requires
        unique_regions(rows),
    ensures
        unique_regions(assigned(rows, macro_region, data_shard)),
{
    filter_keeps_unique(rows, macro_region);
}

proof fn filter_keeps_unique(rows: Seq<RegionShard>, removed: u64)
    requires
        unique_regions(rows),
    ensures
        unique_regions(rows.filter(other_region(removed))),
        forall|i: int|
            0 <= i < rows.filter(other_region(removed)).len() ==> rows.contains(
                #[trigger] rows.filter(other_region(removed))[i],
            ) && rows.filter(other_region(removed))[i].macro_region != removed,
    decreases rows.len(),
{
    reveal(Seq::filter);
    let keep = other_region(removed);
    if rows.len() > 0 {
        let init = rows.drop_last();
        assert forall|i: int, j: int|
            #![trigger init[i], init[j]]
            0 <= i < j < init.len() implies init[i].macro_region != init[j].macro_region by {
            assert(rows[i] == init[i] && rows[j] == init[j]);
        }
        filter_keeps_unique(init, removed);
        let f = init.filter(keep);
        let out = rows.filter(keep);
        assert forall|i: int| 0 <= i < f.len() implies rows.contains(#[trigger] f[i])
            && f[i].macro_region != rows.last().macro_region by {
            assert(init.contains(f[i]));
            let k = choose|k: int| 0 <= k < init.len() && init[k] == f[i];
            assert(rows[k] == f[i]);
            assert(rows[rows.len() - 1] == rows.last());
        }
        if rows.last().macro_region != removed {
            assert(out =~= f.push(rows.last()));
            assert(rows[rows.len() - 1] == rows.last());
        } else {
            assert(out =~= f);
        }
    }
}

} // verus!
