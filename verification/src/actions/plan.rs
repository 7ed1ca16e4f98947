//! The plan of an action: what its tape does, and which holds it takes.
//!
//! The holds are computed once, from the recipe and its bindings. Taking them
//! when the action starts and giving them back when it completes read the same
//! list, so that the two passes never drift apart.
use std::collections::HashMap;

use vstd::prelude::*;

use crate::actions::tape;
use crate::actions::tape::Effect;
use crate::actions::tape::HexLocation;
use crate::actions::tape::TapeError;
use crate::actions::tape::TapeWalker;
use crate::actions::tape::Walk;
use crate::cards::env::Env;
use crate::content::Recipe;
use crate::content::SlotIterator;
use crate::tables::Db;
use crate::tables::Tables;

verus! {

/// The holds that an action takes on one card.
#[derive(Clone, Copy, Debug, PartialEq, Eq, Structural)]
pub struct HoldKinds {
    pub slot_hold: bool,
    pub position_hold: bool,
    pub slot_share: bool,
}

/// The plan of an action.
pub struct ActionPlan {
    pub styles: HashMap<u32, u8>,
    pub duration: u32,
    pub pending: Vec<Effect>,
    /// The held cards, in ascending order.
    pub holds: Vec<(u32, HoldKinds)>,
}

/// The contents of an [`ActionPlan`].
#[verifier::ext_equal]
pub struct Plan {
    pub styles: Map<u32, u8>,
    pub duration: u32,
    pub pending: Seq<Effect>,
    pub holds: Seq<(u32, HoldKinds)>,
}

impl View for ActionPlan {
    type V = Plan;

    open spec fn view(&self) -> Plan {
        Plan {
            styles: self.styles@,
            duration: self.duration,
            pending: self.pending@,
            holds: self.holds@,
        }
    }
}

/// Milliseconds from the start of an action to its completion.
pub open spec fn length_ms(p: Plan) -> int {
    p.duration * 1000
}

impl ActionPlan {
    /// Milliseconds from the start of the action to its completion.
    pub fn duration_ms(&self) -> (ms: u64)
        ensures
            ms == length_ms(self@),
    {
        self.duration as u64 * 1000
    }

    /// The held cards with their holds, in ascending order.
    pub fn holds(&self) -> (h: &Vec<(u32, HoldKinds)>)
        ensures
            h@ == self@.holds,
    {
        &self.holds
    }
}

// ---- holds ---------------------------------------------------------
pub open spec fn no_holds() -> HoldKinds {
    HoldKinds { slot_hold: false, position_hold: false, slot_share: false }
}

/// Both sets of holds.
pub open spec fn both(a: HoldKinds, b: HoldKinds) -> HoldKinds {
    HoldKinds {
        slot_hold: a.slot_hold || b.slot_hold,
        position_hold: a.position_hold || b.position_hold,
        slot_share: a.slot_share || b.slot_share,
    }
}

/// A claim takes the slot for itself, everything else shares it.
pub open spec fn kinds(slot_hold: bool, position_hold: bool) -> HoldKinds {
    HoldKinds { slot_hold, position_hold, slot_share: !slot_hold }
}

/// `h` with `k` added to the holds of a card, in ascending order.
pub open spec fn joined(h: Seq<(u32, HoldKinds)>, id: u32, k: HoldKinds) -> Seq<(u32, HoldKinds)>
    decreases h.len(),
{
    if h.len() == 0 || h.last().0 < id {
        h.push((id, k))
    } else if h.last().0 == id {
        h.drop_last().push((id, both(h.last().1, k)))
    } else {
        joined(h.drop_last(), id, k).push(h.last())
    }
}

/// `h` with `k` added to the holds of every card of a binding row.
pub open spec fn row_joined(h: Seq<(u32, HoldKinds)>, row: Seq<u32>, k: HoldKinds) -> Seq<
    (u32, HoldKinds),
>
    decreases row.len(),
{
    if row.len() == 0 {
        h
    } else {
        let before = row_joined(h, row.drop_last(), k);
        if row.last() == 0 {
            before
        } else {
            joined(before, row.last(), k)
        }
    }
}

/// `h` with the holds of the first `n` iterators added to the cards bound to them.
pub open spec fn iterators_joined(
    h: Seq<(u32, HoldKinds)>,
    its: Seq<SlotIterator>,
    bindings: Seq<Vec<u32>>,
    n: int,
) -> Seq<(u32, HoldKinds)>
    decreases n,
{
    if n <= 0 {
        h
    } else {
        let before = iterators_joined(h, its, bindings, n - 1);
        if n - 1 < bindings.len() {
            row_joined(
                before,
                bindings[n - 1]@,
                kinds(its[n - 1].slot_hold, its[n - 1].position_hold),
            )
        } else {
            before
        }
    }
}

/// The root card takes part in the action in its own right.
pub open spec fn anchors(r: Recipe, root: u32) -> bool {
    r.anchors_root && root != 0
}

/// The holds of an action: those of its root anchor, and those of every iterator
/// on the cards bound to it.
pub open spec fn holds_of(r: Recipe, bindings: Seq<Vec<u32>>, root: u32) -> Seq<(u32, HoldKinds)> {
    let start = if anchors(r, root) {
        seq![(root, kinds(r.root_slot_hold, r.root_position_hold))]
    } else {
        Seq::empty()
    };
    iterators_joined(start, r.iterators@, bindings, r.iterators@.len() as int)
}

fn join(h: &mut Vec<(u32, HoldKinds)>, id: u32, k: HoldKinds)
    ensures
        final(h)@ == joined(old(h)@, id, k),
{
    let ghost all = h@;
    let mut j: usize = h.len();
    assert(all.take(j as int) =~= all);
    assert(joined(all, id, k) + all.skip(j as int) =~= joined(all, id, k));
    while j > 0 && h[j - 1].0 > id
        invariant
            j <= h.len(),
            h@ == all,
            joined(all, id, k) == joined(all.take(j as int), id, k) + all.skip(j as int),
        decreases j,
    {
        proof {
            let t = all.take(j as int);
            assert(t.last() == all[j - 1]);
            assert(t.drop_last() =~= all.take(j - 1));
            assert(joined(t, id, k) + all.skip(j as int) =~= joined(t.drop_last(), id, k)
                + all.skip(j - 1));
        }
        j = j - 1;
    }
    let ghost t = all.take(j as int);
    if j > 0 && h[j - 1].0 == id {
        let was: HoldKinds = h[j - 1].1;
        let now = HoldKinds {
            slot_hold: was.slot_hold || k.slot_hold,
            position_hold: was.position_hold || k.position_hold,
            slot_share: was.slot_share || k.slot_share,
        };
        h.set(j - 1, (id, now));
        proof {
            assert(t.last() == all[j - 1]);
            assert(joined(t, id, k) == t.drop_last().push((id, now)));
            assert(h@ =~= joined(t, id, k) + all.skip(j as int));
        }
    } else {
        h.insert(j, (id, k));
        proof {
            assert(j > 0 ==> t.last() == all[j - 1]);
            assert(joined(t, id, k) == t.push((id, k)));
            assert(h@ =~= joined(t, id, k) + all.skip(j as int));
        }
    }
}

fn join_row(h: &mut Vec<(u32, HoldKinds)>, row: &Vec<u32>, k: HoldKinds)
    ensures
        final(h)@ == row_joined(old(h)@, row@, k),
{
    let ghost start = h@;
    let mut i: usize = 0;
    assert(row@.take(0) =~= Seq::empty());
    while i < row.len()
        invariant
            i <= row.len(),
            h@ == row_joined(start, row@.take(i as int), k),
        decreases row.len() - i,
    {
        proof {
            let next = row@.take(i + 1);
            assert(next.drop_last() =~= row@.take(i as int));
            assert(next.last() == row@[i as int]);
        }
        let id: u32 = row[i];
        if id != 0 {
            join(h, id, k);
        }
        i = i + 1;
    }
    assert(row@.take(row.len() as int) =~= row@);
}

/// Compute the holds of an action.
pub fn compute_holds(recipe: &Recipe, bindings: &Vec<Vec<u32>>, root: u32) -> (h: Vec<
    (u32, HoldKinds),
>)
    ensures
        h@ == holds_of(*recipe, bindings@, root),
{
    let mut h: Vec<(u32, HoldKinds)> = Vec::new();
    if recipe.anchors_root && root != 0 {
        let k = HoldKinds {
            slot_hold: recipe.root_slot_hold,
            position_hold: recipe.root_position_hold,
            slot_share: !recipe.root_slot_hold,
        };
        h.push((root, k));
    }
    let ghost start = h@;
    proof {
        assert(anchors(*recipe, root) ==> start =~= seq![
            (root, kinds(recipe.root_slot_hold, recipe.root_position_hold)),
        ]);
        assert(!anchors(*recipe, root) ==> start =~= Seq::empty());
    }
    let its = &recipe.iterators;
    let mut i: usize = 0;
    while i < its.len()
        invariant
            i <= its.len(),
            its@ == recipe.iterators@,
            h@ == iterators_joined(start, its@, bindings@, i as int),
        decreases its.len() - i,
    {
        if i < bindings.len() {
            let k = HoldKinds {
                slot_hold: its[i].slot_hold,
                position_hold: its[i].position_hold,
                slot_share: !its[i].slot_hold,
            };
            join_row(&mut h, &bindings[i], k);
        }
        i = i + 1;
    }
    h
}

// ---- planning ------------------------------------------------------
/// A statement of the output tape that cannot be executed.
#[derive(Clone, Copy, Debug, PartialEq, Eq, Structural)]
pub struct PlanError {
    /// Position of the statement.
    pub index: usize,
    pub error: TapeError,
}

/// The walk after the first `n` statements of a recipe's output tape.
pub open spec fn tape_walked(
    e: Env,
    db: Db,
    r: Recipe,
    bindings: Seq<Vec<u32>>,
    root: u32,
    hex: Option<HexLocation>,
    n: int,
) -> Result<Walk, PlanError>
    decreases n,
{
    if n <= 0 {
        Ok(tape::fresh_walk())
    } else {
        match tape_walked(e, db, r, bindings, root, hex, n - 1) {
            Err(err) => Err(err),
            Ok(w) => match tape::stmt_done(
                e,
                db,
                w,
                r,
                r.output@[n - 1].segments@,
                r.output@[n - 1].value,
                bindings,
                root,
                hex,
            ) {
                Err(error) => Err(PlanError { index: (n - 1) as usize, error }),
                Ok(next) => Ok(next),
            },
        }
    }
}

/// The plan of an action.
pub open spec fn planned(
    e: Env,
    db: Db,
    r: Recipe,
    bindings: Seq<Vec<u32>>,
    root: u32,
    hex: Option<HexLocation>,
) -> Result<Plan, PlanError> {
    match tape_walked(e, db, r, bindings, root, hex, r.output@.len() as int) {
        Err(err) => Err(err),
        Ok(w) => Ok(
            Plan {
                styles: w.styles,
                duration: w.duration,
                pending: w.pending,
                holds: holds_of(r, bindings, root),
            },
        ),
    }
}

proof fn lemma_walk_stops(
    e: Env,
    db: Db,
    r: Recipe,
    bindings: Seq<Vec<u32>>,
    root: u32,
    hex: Option<HexLocation>,
    n: int,
    m: int,
)
    requires
        0 <= n <= m,
        tape_walked(e, db, r, bindings, root, hex, n) is Err,
    ensures
        tape_walked(e, db, r, bindings, root, hex, m) == tape_walked(
            e,
            db,
            r,
            bindings,
            root,
            hex,
            n,
        ),
    decreases m - n,
{
    if n < m {
        lemma_walk_stops(e, db, r, bindings, root, hex, n, m - 1);
    }
}

/// Walk the output tape of a recipe into a plan. Nothing is written.
pub fn plan(
    e: &Env,
    tb: &Tables,
    recipe: &Recipe,
    bindings: &Vec<Vec<u32>>,
    root: u32,
    synthetic_hex: &Option<HexLocation>,
) -> (r: Result<ActionPlan, PlanError>)
    requires
        e.wf(),
        e.catalog.summable(),
    ensures
        match r {
            Ok(p) => planned(*e, tb@, *recipe, bindings@, root, *synthetic_hex) == Ok::<
                Plan,
                PlanError,
            >(p@),
            Err(err) => planned(*e, tb@, *recipe, bindings@, root, *synthetic_hex) == Err::<
                Plan,
                PlanError,
            >(err),
        },
{
    let mut walker = TapeWalker::new();
    let out = &recipe.output;
    let mut i: usize = 0;
    while i < out.len()
        invariant
            i <= out.len(),
            out@ == recipe.output@,
            e.wf(),
            e.catalog.summable(),
            tape_walked(*e, tb@, *recipe, bindings@, root, *synthetic_hex, i as int) == Ok::<
                Walk,
                PlanError,
            >(walker@),
        decreases out.len() - i,
    {
        let stmt = &out[i];
        assert(stmt.segments@.skip(0) =~= stmt.segments@);
        match tape::execute_stmt(
            e,
            tb,
            &mut walker,
            recipe,
            &stmt.segments,
            0,
            &stmt.value,
            bindings,
            root,
            synthetic_hex,
        ) {
            Ok(()) => {},
            Err(error) => {
                proof {
                    lemma_walk_stops(
                        *e,
                        tb@,
                        *recipe,
                        bindings@,
                        root,
                        *synthetic_hex,
                        i + 1,
                        out.len() as int,
                    );
                }
                return Err(PlanError { index: i, error });
            },
        }
        i = i + 1;
    }
    let holds: Vec<(u32, HoldKinds)> = compute_holds(recipe, bindings, root);
    Ok(
        ActionPlan {
            styles: walker.styles,
            duration: walker.duration,
            pending: walker.pending,
            holds,
        },
    )
}

// ---- laws ----------------------------------------------------------
/// The holds listed for a card, none where it is not listed.
pub open spec fn listed(h: Seq<(u32, HoldKinds)>, id: u32) -> Option<HoldKinds>
    decreases h.len(),
{
    if h.len() == 0 {
        None
    } else if h.last().0 == id {
        Some(h.last().1)
    } else {
        listed(h.drop_last(), id)
    }
}

pub open spec fn ascending(h: Seq<(u32, HoldKinds)>) -> bool {
    forall|i: int, j: int| 0 <= i < j < h.len() ==> (#[trigger] h[i]).0 < (#[trigger] h[j]).0
}

pub open spec fn or_none(k: Option<HoldKinds>) -> HoldKinds {
    match k {
        Some(k) => k,
        None => no_holds(),
    }
}

pub(crate) proof fn lemma_listed_below(h: Seq<(u32, HoldKinds)>, id: u32)
    requires
        forall|i: int| 0 <= i < h.len() ==> (#[trigger] h[i]).0 != id,
    ensures
        listed(h, id) is None,
    decreases h.len(),
{
    if h.len() > 0 {
        assert(h[h.len() - 1].0 != id);
        assert forall|i: int| 0 <= i < h.drop_last().len() implies (
        #[trigger] h.drop_last()[i]).0 != id by {
            assert(h.drop_last()[i] == h[i]);
        }
        lemma_listed_below(h.drop_last(), id);
    }
}

proof fn lemma_joined(h: Seq<(u32, HoldKinds)>, id: u32, k: HoldKinds, x: u32)
    requires
        ascending(h),
    ensures
        ascending(joined(h, id, k)),
        forall|i: int|
            0 <= i < joined(h, id, k).len() ==> (#[trigger] joined(h, id, k)[i]).0 == id || exists|
                j: int,
            |
                0 <= j < h.len() && h[j].0 == joined(h, id, k)[i].0,
        listed(joined(h, id, k), x) == if x == id {
            Some(both(or_none(listed(h, id)), k))
        } else {
            listed(h, x)
        },
    decreases h.len(),
{
    let out = joined(h, id, k);
    if h.len() == 0 || h.last().0 < id {
        assert(out.drop_last() =~= h);
        assert forall|i: int| 0 <= i < h.len() implies (#[trigger] h[i]).0 != id by {
            assert(h[i].0 <= h[h.len() - 1].0);
        }
        lemma_listed_below(h, id);
        assert forall|i: int, j: int| 0 <= i < j < out.len() implies (#[trigger] out[i]).0 < (
        #[trigger] out[j]).0 by {
            assert(out[i] == h[i]);
            if j < h.len() {
                assert(out[j] == h[j]);
            } else {
                assert(h[i].0 <= h[h.len() - 1].0);
            }
        }
        assert forall|i: int| 0 <= i < out.len() implies (#[trigger] out[i]).0 == id || exists|
            j: int,
        |
            0 <= j < h.len() && h[j].0 == out[i].0 by {
            if i < h.len() {
                assert(h[i].0 == out[i].0);
            }
        }
    } else if h.last().0 == id {
        let t = h.drop_last();
        assert(out.drop_last() =~= t);
        assert forall|i: int, j: int| 0 <= i < j < out.len() implies (#[trigger] out[i]).0 < (
        #[trigger] out[j]).0 by {
            assert(h[i].0 < h[j].0);
        }
        assert forall|i: int| 0 <= i < out.len() implies (#[trigger] out[i]).0 == id || exists|
            j: int,
        |
            0 <= j < h.len() && h[j].0 == out[i].0 by {
            assert(h[i].0 == out[i].0);
        }
    } else {
        let t = h.drop_last();
        assert forall|i: int, j: int| 0 <= i < j < t.len() implies (#[trigger] t[i]).0 < (
        #[trigger] t[j]).0 by {
            assert(h[i].0 < h[j].0);
        }
        lemma_joined(t, id, k, x);
        let mid = joined(t, id, k);
        assert(out.drop_last() =~= mid);
        assert forall|i: int| 0 <= i < mid.len() implies (#[trigger] mid[i]).0 < h.last().0 by {
            if mid[i].0 != id {
                let j = choose|j: int| 0 <= j < t.len() && t[j].0 == mid[i].0;
                assert(h[j].0 < h[h.len() - 1].0);
            }
        }
        assert forall|i: int, j: int| 0 <= i < j < out.len() implies (#[trigger] out[i]).0 < (
        #[trigger] out[j]).0 by {
            assert(out[i] == mid[i]);
            if j < mid.len() {
                assert(out[j] == mid[j]);
            }
        }
        assert forall|i: int| 0 <= i < out.len() implies (#[trigger] out[i]).0 == id || exists|
            j: int,
        |
            0 <= j < h.len() && h[j].0 == out[i].0 by {
            if i < mid.len() {
                assert(out[i] == mid[i]);
                if mid[i].0 != id {
                    let j = choose|j: int| 0 <= j < t.len() && t[j].0 == mid[i].0;
                    assert(h[j].0 == out[i].0);
                }
            } else {
                assert(h[h.len() - 1].0 == out[i].0);
            }
        }
    }
}

proof fn lemma_row_joined(h: Seq<(u32, HoldKinds)>, row: Seq<u32>, k: HoldKinds, x: u32)
    requires
        ascending(h),
    ensures
        ascending(row_joined(h, row, k)),
        listed(row_joined(h, row, k), x) == if x != 0 && row.contains(x) {
            Some(both(or_none(listed(h, x)), k))
        } else {
            listed(h, x)
        },
    decreases row.len(),
{
    if row.len() > 0 {
        let init = row.drop_last();
        lemma_row_joined(h, init, k, x);
        assert(row[row.len() - 1] == row.last());
        if init.contains(x) {
            let i = choose|i: int| 0 <= i < init.len() && init[i] == x;
            assert(row[i] == x);
        }
        if row.contains(x) && row.last() != x {
            let i = choose|i: int| 0 <= i < row.len() && row[i] == x;
            assert(init[i] == x);
        }
        if row.last() != 0 {
            lemma_joined(row_joined(h, init, k), row.last(), k, x);
        }
    }
}

/// Some of the first `n` iterators binds `id` and satisfies `f`.
pub open spec fn bound_by(
    its: Seq<SlotIterator>,
    bindings: Seq<Vec<u32>>,
    n: int,
    id: u32,
    f: spec_fn(SlotIterator) -> bool,
) -> bool {
    exists|i: int|
        0 <= i < n && i < bindings.len() && #[trigger] bindings[i]@.contains(id) && f(its[i])
}

pub open spec fn any_iterator() -> spec_fn(SlotIterator) -> bool {
    |it: SlotIterator| true
}

pub open spec fn claiming() -> spec_fn(SlotIterator) -> bool {
    |it: SlotIterator| it.slot_hold
}

pub open spec fn sharing() -> spec_fn(SlotIterator) -> bool {
    |it: SlotIterator| !it.slot_hold
}

pub open spec fn pinning() -> spec_fn(SlotIterator) -> bool {
    |it: SlotIterator| it.position_hold
}

proof fn lemma_bound_step(
    its: Seq<SlotIterator>,
    bindings: Seq<Vec<u32>>,
    n: int,
    id: u32,
    f: spec_fn(SlotIterator) -> bool,
)
    requires
        n >= 1,
    ensures
        bound_by(its, bindings, n, id, f) == (bound_by(its, bindings, n - 1, id, f) || (n - 1
            < bindings.len() && bindings[n - 1]@.contains(id) && f(its[n - 1]))),
{
    if bound_by(its, bindings, n, id, f) {
        let i = choose|i: int|
            0 <= i < n && i < bindings.len() && #[trigger] bindings[i]@.contains(id) && f(its[i]);
        assert(i == n - 1 || bound_by(its, bindings, n - 1, id, f));
    }
    if bound_by(its, bindings, n - 1, id, f) {
        let i = choose|i: int|
            0 <= i < n - 1 && i < bindings.len() && #[trigger] bindings[i]@.contains(id) && f(
                its[i],
            );
        assert(bindings[i]@.contains(id));
    }
    if n - 1 < bindings.len() && bindings[n - 1]@.contains(id) && f(its[n - 1]) {
        assert(bindings[n - 1]@.contains(id));
    }
}

proof fn lemma_iterators_joined(
    h: Seq<(u32, HoldKinds)>,
    its: Seq<SlotIterator>,
    bindings: Seq<Vec<u32>>,
    n: int,
    x: u32,
)
    requires
        ascending(h),
        x != 0,
        n >= 0,
    ensures
        ascending(iterators_joined(h, its, bindings, n)),
        listed(iterators_joined(h, its, bindings, n), x) is Some <==> listed(h, x) is Some
            || bound_by(its, bindings, n, x, any_iterator()),
        or_none(listed(iterators_joined(h, its, bindings, n), x)) == both(
            or_none(listed(h, x)),
            HoldKinds {
                slot_hold: bound_by(its, bindings, n, x, claiming()),
                position_hold: bound_by(its, bindings, n, x, pinning()),
                slot_share: bound_by(its, bindings, n, x, sharing()),
            },
        ),
    decreases n,
{
    if n > 0 {
        lemma_iterators_joined(h, its, bindings, n - 1, x);
        lemma_bound_step(its, bindings, n, x, any_iterator());
        lemma_bound_step(its, bindings, n, x, claiming());
        lemma_bound_step(its, bindings, n, x, pinning());
        lemma_bound_step(its, bindings, n, x, sharing());
        if n - 1 < bindings.len() {
            lemma_row_joined(
                iterators_joined(h, its, bindings, n - 1),
                bindings[n - 1]@,
                kinds(its[n - 1].slot_hold, its[n - 1].position_hold),
                x,
            );
        }
    }
}

proof fn lemma_zero_left_out(
    h: Seq<(u32, HoldKinds)>,
    its: Seq<SlotIterator>,
    bindings: Seq<Vec<u32>>,
    n: int,
)
    requires
        ascending(h),
        n >= 0,
    ensures
        ascending(iterators_joined(h, its, bindings, n)),
        listed(iterators_joined(h, its, bindings, n), 0) == listed(h, 0),
    decreases n,
{
    if n > 0 {
        lemma_zero_left_out(h, its, bindings, n - 1);
        if n - 1 < bindings.len() {
            lemma_row_joined(
                iterators_joined(h, its, bindings, n - 1),
                bindings[n - 1]@,
                kinds(its[n - 1].slot_hold, its[n - 1].position_hold),
                0,
            );
        }
    }
}

/// The holds of an action list every card once, in ascending order; a card is
/// listed exactly where it is the anchoring root or bound to an iterator, and its
/// holds are the union over all the ways in which it takes part. The empty slot,
/// card 0, is left out.
pub proof fn holds_are_the_union(r: Recipe, bindings: Seq<Vec<u32>>, root: u32, id: u32)
    ensures
        id == 0 ==> listed(holds_of(r, bindings, root), id) is None,
        ({
            let h = holds_of(r, bindings, root);
            let n = r.iterators@.len() as int;
            let at_root = anchors(r, root) && id == root;
            let joins = |f: spec_fn(SlotIterator) -> bool| bound_by(r.iterators@, bindings, n, id, f);
            &&& ascending(h)
            &&& id != 0 ==> (listed(h, id) is Some <==> at_root || joins(any_iterator()))
            &&& id != 0 ==> or_none(listed(h, id)) == (HoldKinds {
                slot_hold: (at_root && r.root_slot_hold) || joins(claiming()),
                position_hold: (at_root && r.root_position_hold) || joins(pinning()),
                slot_share: (at_root && !r.root_slot_hold) || joins(sharing()),
            })
        }),
{
    let start = if anchors(r, root) {
        seq![(root, kinds(r.root_slot_hold, r.root_position_hold))]
    } else {
        Seq::empty()
    };
    assert(ascending(start));
    if anchors(r, root) {
        assert(start.last().0 == root);
        assert(start.drop_last() =~= Seq::empty());
        lemma_listed_below(start.drop_last(), id);
        assert(listed(start, id) == if id == root {
            Some(kinds(r.root_slot_hold, r.root_position_hold))
        } else {
            None
        });
    } else {
        lemma_listed_below(start, id);
    }
    if id == 0 {
        lemma_zero_left_out(start, r.iterators@, bindings, r.iterators@.len() as int);
    } else {
        lemma_iterators_joined(start, r.iterators@, bindings, r.iterators@.len() as int, id);
    }
}

} // verus!
