//! What every action keeps.
use vstd::prelude::*;

use crate::actions::completion;
use crate::actions::plan;
use crate::actions::propose;
use crate::actions::propose::ProposeError;
use crate::actions::tape::HexLocation;
use crate::actions::verify::SyntheticTile;
use crate::cards::env::Env;
use crate::content::Recipe;
use crate::history;
use crate::pending_actions;
use crate::tables::Db;

verus! {

/// A proposal that is rejected before it commits changes nothing, and one that is
/// carried out is no longer in flight.
pub proof fn proposal_leaves_no_trace_in_flight(
    e: Env,
    db: Db,
    r: Recipe,
    recipe_id: u16,
    surface: u8,
    macro_zone: u64,
    micro_location: u32,
    root: u32,
    bindings: Seq<Vec<u32>>,
    tile: Option<(SyntheticTile, HexLocation)>,
    caller: u32,
    t: u64,
)
    ensures
        ({
            let out = propose::bound_proposed(
                e,
                db,
                r,
                recipe_id,
                surface,
                macro_zone,
                micro_location,
                root,
                bindings,
                tile,
                caller,
                t,
            );
            match out.1 {
                Ok(()) => !pending_actions::in_flight(
                    out.0.pending_actions,
                    pending_actions::key_of(recipe_id, root, bindings),
                ),
                Err(ProposeError::Commit(_)) => true,
                Err(_) => out.0 == db,
            }
        }),
{
    reveal(propose::bound_proposed);
    let out = propose::bound_proposed(
        e,
        db,
        r,
        recipe_id,
        surface,
        macro_zone,
        micro_location,
        root,
        bindings,
        tile,
        caller,
        t,
    );
    let key = pending_actions::key_of(recipe_id, root, bindings);
    if out.1 is Ok {
        let hex = match tile {
            Some(s) => Some(s.1),
            None => None,
        };
        let p = plan::planned(e, db, r, bindings, root, hex)->Ok_0;
        let a = Db {
            pending_actions: db.pending_actions.push(
                pending_actions::PendingAction {
                    dedup_key: key,
                    completion_ms: (t + plan::length_ms(p)) as u64,
                },
            ),
            ..db
        };
        let b = propose::stitched(
            e,
            a,
            r,
            root,
            surface,
            macro_zone,
            micro_location,
            bindings,
            t,
        );
        let c = propose::locked(e, b, p.holds, t);
        let when = (t + plan::length_ms(p)) as u64;
        let d = completion::effects_done(e, c, p.pending, when);
        assert(completion::committed(e, c, p, bindings, root, t, key).1 is Ok);
        let f = completion::all_finished(
            e,
            d.0,
            p,
            completion::participants(bindings, root),
            when,
        );
        let rows = f.pending_actions;
        assert(out.0.pending_actions == pending_actions::released(rows, key));
        history::filter_members(rows, pending_actions::other_key(key));
        let left = pending_actions::released(rows, key);
        assert forall|i: int| 0 <= i < left.len() implies (#[trigger] left[i]).dedup_key != key by {
            assert(pending_actions::other_key(key)(left[i]));
        }
    }
}

} // verus!
