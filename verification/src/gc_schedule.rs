//! The recurring schedule of garbage-collection sweeps.
use vstd::prelude::*;

verus! {

/// Time between two sweeps.
pub const GC_INTERVAL_MS: i64 = 600_000;

/// A recurring sweep.
#[derive(Clone, Copy, Debug, PartialEq, Eq, Structural)]
pub struct GcSchedule {
    /// Assigned by the table where it is 0.
    pub id: u64,
    pub interval_ms: i64,
}

/// The schedule after initialisation: it holds at least one row.
pub open spec fn initialised(rows: Seq<GcSchedule>) -> Seq<GcSchedule> {
    if rows.len() > 0 {
        rows
    } else {
        rows.push(GcSchedule { id: 0, interval_ms: GC_INTERVAL_MS })
    }
}

/// Seed the recurring schedule; nothing happens where one is there.
pub fn init(rows: &mut Vec<GcSchedule>)
    ensures
        final(rows)@ == initialised(old(rows)@),
{
    if rows.len() == 0 {
        rows.push(GcSchedule { id: 0, interval_ms: GC_INTERVAL_MS });
    }
}

/// Initialising twice is initialising once.
pub proof fn init_is_idempotent(rows: Seq<GcSchedule>)
    ensures
        initialised(initialised(rows)) == initialised(rows),
        initialised(rows).len() > 0,
{
}

} // verus!
