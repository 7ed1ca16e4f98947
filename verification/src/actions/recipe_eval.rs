//! The stack of a soul: every live card on one branch of it.
use vstd::prelude::*;

use crate::cards::cards;
use crate::cards::cards::Card;
use crate::cards::env::Env;
use crate::cards::env::HoldKind;
use crate::tables::Db;
use crate::tables::Tables;

verus! {

/// Levels of the walk.
pub const SOUL_STACK_MAX_DEPTH: usize = 16;

/// The card is a live member of a stack in the branch, and no action claims it.
pub open spec fn rests_on(e: Env, c: Card, direction: u8) -> bool {
    &&& !cards::is_dead(e, c)
    &&& cards::hold_value(e, HoldKind::SlotHold, c.flags_bk) == 0
    &&& cards::is_member(e, c)
    &&& cards::branch_of(e, c) == direction
    &&& c.micro_location != 0
}

/// The ids of the cards with a row owned by the soul, in order of first mention.
pub open spec fn owned_ids(rows: Seq<Card>, soul: u32) -> Seq<u32>
    decreases rows.len(),
{
    if rows.len() == 0 {
        Seq::empty()
    } else {
        let before = owned_ids(rows.drop_last(), soul);
        let c = rows.last();
        if c.owner_id != soul || before.contains(c.card_id) {
            before
        } else {
            before.push(c.card_id)
        }
    }
}

/// The current rows of those of `ids` that rest on the branch.
pub open spec fn resting(e: Env, db: Db, ids: Seq<u32>, direction: u8) -> Seq<Card>
    decreases ids.len(),
{
    if ids.len() == 0 {
        Seq::empty()
    } else {
        let before = resting(e, db, ids.drop_last(), direction);
        match cards::current(e, db, ids.last()) {
            None => before,
            Some(c) => if rests_on(e, c, direction) {
                before.push(c)
            } else {
                before
            },
        }
    }
}

pub open spec fn on(parent: u32) -> spec_fn(Card) -> bool {
    |c: Card| c.micro_location == parent
}

pub open spec fn not_on(parent: u32) -> spec_fn(Card) -> bool {
    |c: Card| c.micro_location != parent
}

/// The cards that stand directly on the parents, parent by parent, and those that
/// are left.
pub open spec fn level(parents: Seq<Card>, left: Seq<Card>) -> (Seq<Card>, Seq<Card>)
    decreases parents.len(),
{
    if parents.len() == 0 {
        (Seq::empty(), left)
    } else {
        let before = level(parents.drop_last(), left);
        let id = parents.last().card_id;
        (before.0 + before.1.filter(on(id)), before.1.filter(not_on(id)))
    }
}

/// The cards below a level, level by level, down to `depth` levels.
pub open spec fn below(parents: Seq<Card>, left: Seq<Card>, depth: nat) -> Seq<Card>
    decreases depth,
{
    if depth == 0 || parents.len() == 0 {
        Seq::empty()
    } else {
        let l = level(parents, left);
        l.0 + below(l.0, l.1, (depth - 1) as nat)
    }
}

/// The stack of a soul on one branch, from the soul outward.
pub open spec fn stack_of(e: Env, db: Db, soul: u32, direction: u8) -> Seq<Card> {
    if soul == 0 {
        Seq::empty()
    } else {
        let all = resting(e, db, owned_ids(db.cards, soul), direction);
        let first = all.filter(on(soul));
        first + below(first, all.filter(not_on(soul)), (SOUL_STACK_MAX_DEPTH - 1) as nat)
    }
}

fn find_owned(tb: &Tables, soul: u32) -> (ids: Vec<u32>)
    ensures
        ids@ == owned_ids(tb@.cards, soul),
{
    let mut ids: Vec<u32> = Vec::new();
    let mut i: usize = 0;
    while i < tb.cards.len()
        invariant
            i <= tb.cards.len(),
            ids@ == owned_ids(tb@.cards.take(i as int), soul),
        decreases tb.cards.len() - i,
    {
        let c = tb.cards[i];
        proof {
            let next = tb@.cards.take(i + 1);
            assert(next.drop_last() =~= tb@.cards.take(i as int));
            assert(next.last() == c);
        }
        if c.owner_id == soul && !cards::holds_id(&ids, c.card_id) {
            ids.push(c.card_id);
        }
        i = i + 1;
    }
    assert(tb@.cards.take(tb.cards.len() as int) =~= tb@.cards);
    ids
}

fn find_resting(e: &Env, tb: &Tables, ids: &Vec<u32>, direction: u8) -> (out: Vec<Card>)
    requires
        e.wf(),
    ensures
        out@ == resting(*e, tb@, ids@, direction),
{
    let mut out: Vec<Card> = Vec::new();
    let mut i: usize = 0;
    while i < ids.len()
        invariant
            i <= ids.len(),
            e.wf(),
            out@ == resting(*e, tb@, ids@.take(i as int), direction),
        decreases ids.len() - i,
    {
        proof {
            let next = ids@.take(i + 1);
            assert(next.drop_last() =~= ids@.take(i as int));
            assert(next.last() == ids@[i as int]);
        }
        if let Some(c) = cards::latest(e, tb, ids[i]) {
            if c.flags_state & e.state.dead == 0 && cards::hold_count(
                e,
                HoldKind::SlotHold,
                c.flags_bk,
            ) == 0 && cards::micro_is_card(e, &c) && cards::stack_branch(e, &c) == direction
                && c.micro_location != 0 {
                out.push(c);
            }
        }
        i = i + 1;
    }
    assert(ids@.take(ids.len() as int) =~= ids@);
    out
}

/// Split `left` into the cards on `parent`, appended to `out`, and the rest.
fn take_children(parent: u32, left: &Vec<Card>, out: &mut Vec<Card>) -> (rest: Vec<Card>)
    ensures
        final(out)@ == old(out)@ + left@.filter(on(parent)),
        rest@ == left@.filter(not_on(parent)),
{
    let ghost start = out@;
    let ghost here = on(parent);
    let ghost elsewhere = not_on(parent);
    let mut rest: Vec<Card> = Vec::new();
    let mut i: usize = 0;
    proof {
        reveal(Seq::filter);
        assert(left@.take(0).filter(here) =~= Seq::empty());
        assert(left@.take(0).filter(elsewhere) =~= Seq::empty());
        assert(start + left@.take(0).filter(here) =~= start);
    }
    while i < left.len()
        invariant
            i <= left.len(),
            here == on(parent),
            elsewhere == not_on(parent),
            out@ == start + left@.take(i as int).filter(here),
            rest@ == left@.take(i as int).filter(elsewhere),
        decreases left.len() - i,
    {
        let c = left[i];
        proof {
            crate::history::filter_take_step(left@, i as int, here);
            crate::history::filter_take_step(left@, i as int, elsewhere);
        }
        if c.micro_location == parent {
            out.push(c);
            assert(out@ =~= start + left@.take(i + 1).filter(here));
        } else {
            rest.push(c);
        }
        i = i + 1;
    }
    assert(left@.take(left.len() as int) =~= left@);
    rest
}

/// Collect every live card on one branch of a soul's stack, from the soul outward.
pub fn soul_stack(e: &Env, tb: &Tables, soul_card_id: u32, direction: u8) -> (out: Vec<Card>)
    requires
        e.wf(),
    ensures
        out@ == stack_of(*e, tb@, soul_card_id, direction),
{
    let mut out: Vec<Card> = Vec::new();
    if soul_card_id == 0 {
        return out;
    }
    let ids: Vec<u32> = find_owned(tb, soul_card_id);
    let all: Vec<Card> = find_resting(e, tb, &ids, direction);
    let mut left: Vec<Card> = take_children(soul_card_id, &all, &mut out);
    let ghost goal = stack_of(*e, tb@, soul_card_id, direction);
    let mut from: usize = 0;
    let mut depth: usize = SOUL_STACK_MAX_DEPTH - 1;
    assert(out@.skip(0) =~= out@);
    assert(out@ =~= all@.filter(on(soul_card_id)));
    while depth > 0 && from < out.len()
        invariant
            from <= out.len(),
            goal == out@ + below(out@.skip(from as int), left@, depth as nat),
        decreases depth,
    {
        let to: usize = out.len();
        let ghost before = out@;
        let ghost parents = out@.skip(from as int);
        let ghost left0 = left@;
        let mut i: usize = from;
        assert(parents.take(0) =~= Seq::empty());
        assert(before + Seq::<Card>::empty() =~= before);
        while i < to
            invariant
                from <= i <= to,
                to == before.len(),
                to <= out.len(),
                parents == before.skip(from as int),
                out@ == before + level(parents.take(i - from), left0).0,
                left@ == level(parents.take(i - from), left0).1,
            decreases to - i,
        {
            proof {
                let next = parents.take(i - from + 1);
                assert(next.drop_last() =~= parents.take(i - from));
                assert(next.last() == before[i as int]);
            }
            let parent: u32 = out[i].card_id;
            let ghost mid = out@;
            left = take_children(parent, &left, &mut out);
            i = i + 1;
            assert(out@ =~= before + level(parents.take(i - from), left0).0);
        }
        proof {
            assert(parents.take(to - from) =~= parents);
            let l = level(parents, left0);
            assert(out@.skip(to as int) =~= l.0);
            assert(before + below(parents, left0, depth as nat) =~= out@ + below(
                out@.skip(to as int),
                left@,
                (depth - 1) as nat,
            ));
        }
        from = to;
        depth = depth - 1;
    }
    assert(out@ + Seq::<Card>::empty() =~= out@);
    out
}

} // verus!
