//! Replaying timed operations on a stock aspect.
//!
//! Operations take effect in order of their times; those of one time keep the
//! order in which they were recorded.
use vstd::prelude::*;

use crate::history;

verus! {

/// What an operation does to the value.
#[derive(Clone, Copy, Debug, PartialEq, Eq, Structural)]
pub enum AspectOp {
    /// Reset to the modifier.
    Assign,
    /// Add the modifier.
    Inc,
    /// Subtract the modifier.
    Dec,
}

impl AspectOp {
    pub open spec fn spec_code(self) -> u8 {
        match self {
            AspectOp::Assign => 0,
            AspectOp::Inc => 1,
            AspectOp::Dec => 2,
        }
    }

    /// The stored code.
    pub fn code(&self) -> (c: u8)
        ensures
            c == self.spec_code(),
    {
        match self {
            AspectOp::Assign => 0,
            AspectOp::Inc => 1,
            AspectOp::Dec => 2,
        }
    }

    pub open spec fn spec_from_code(code: u8) -> Option<AspectOp> {
        if code == 0 {
            Some(AspectOp::Assign)
        } else if code == 1 {
            Some(AspectOp::Inc)
        } else if code == 2 {
            Some(AspectOp::Dec)
        } else {
            None
        }
    }

    /// The operation of a stored code.
    pub fn from_code(code: u8) -> (op: Option<AspectOp>)
        ensures
            op == Self::spec_from_code(code),
    {
        match code {
            0 => Some(AspectOp::Assign),
            1 => Some(AspectOp::Inc),
            2 => Some(AspectOp::Dec),
            _ => None,
        }
    }
}

/// A code gives back its operation.
pub proof fn code_round_trip(op: AspectOp)
    ensures
        AspectOp::spec_from_code(op.spec_code()) == Some(op),
{
}

/// One operation in replay form.
#[derive(Clone, Copy, Debug, PartialEq, Eq, Structural)]
pub struct Op {
    pub time: u64,
    pub op: AspectOp,
    pub modifier: i64,
}

// ---- stable sorting ------------------------------------------------
/// A value that sorts by a number.
pub trait Ranked: Sized + Copy {
    spec fn spec_rank(self) -> u64;

    fn rank(&self) -> (k: u64)
        ensures
            k == self.spec_rank(),
    ;
}

impl Ranked for Op {
    open spec fn spec_rank(self) -> u64 {
        self.time
    }

    fn rank(&self) -> (k: u64) {
        self.time
    }
}

impl Ranked for u64 {
    open spec fn spec_rank(self) -> u64 {
        self
    }

    fn rank(&self) -> (k: u64) {
        *self
    }
}

/// `s` with `x` put in behind everything that does not rank above it.
pub open spec fn inserted<T: Ranked>(s: Seq<T>, x: T) -> Seq<T>
    decreases s.len(),
{
    if s.len() > 0 && s.last().spec_rank() > x.spec_rank() {
        inserted(s.drop_last(), x).push(s.last())
    } else {
        s.push(x)
    }
}

/// `s` by ascending rank; equal ranks keep their order.
pub open spec fn sorted<T: Ranked>(s: Seq<T>) -> Seq<T>
    decreases s.len(),
{
    if s.len() == 0 {
        s
    } else {
        inserted(sorted(s.drop_last()), s.last())
    }
}

#[verifier::opaque]
pub open spec fn ascending<T: Ranked>(s: Seq<T>) -> bool {
    forall|i: int, j: int|
        #![trigger s[i], s[j]]
        0 <= i < j < s.len() ==> s[i].spec_rank() <= s[j].spec_rank()
}

/// Sort by rank, stably.
pub fn sort<T: Ranked>(items: &Vec<T>) -> (out: Vec<T>)
    ensures
        out@ == sorted(items@),
{
    let mut out: Vec<T> = Vec::new();
    let mut i: usize = 0;
    assert(items@.take(0) =~= Seq::empty());
    while i < items.len()
        invariant
            i <= items.len(),
            out@ == sorted(items@.take(i as int)),
        decreases items.len() - i,
    {
        let x: T = items[i];
        proof {
            let next = items@.take(i + 1);
            assert(next.drop_last() =~= items@.take(i as int));
            assert(next.last() == x);
        }
        let mut at: usize = out.len();
        assert(out@.take(at as int) =~= out@);
        assert(inserted(out@.take(at as int), x) + out@.skip(at as int) =~= inserted(out@, x));
        while at > 0 && out[at - 1].rank() > x.rank()
            invariant
                at <= out.len(),
                inserted(out@, x) == inserted(out@.take(at as int), x) + out@.skip(at as int),
            decreases at,
        {
            proof {
                let t = out@.take(at as int);
                assert(t.drop_last() =~= out@.take(at - 1));
                assert(t.last() == out@[at - 1]);
                assert(inserted(t.drop_last(), x).push(t.last()) + out@.skip(at as int)
                    =~= inserted(out@.take(at - 1), x) + out@.skip(at - 1));
            }
            at = at - 1;
        }
        proof {
            let t = out@.take(at as int);
            if at > 0 {
                assert(t.last() == out@[at - 1]);
            }
            assert(inserted(t, x) == t.push(x));
            assert(t.push(x) + out@.skip(at as int) =~= out@.insert(at as int, x));
        }
        out.insert(at, x);
        i = i + 1;
    }
    assert(items@.take(items.len() as int) =~= items@);
    out
}

/// An item that ranks above everything goes to the end.
pub proof fn insert_at_the_end<T: Ranked>(s: Seq<T>, x: T)
    requires
        forall|i: int| 0 <= i < s.len() ==> (#[trigger] s[i]).spec_rank() < x.spec_rank(),
    ensures
        sorted(s.push(x)) == sorted(s).push(x),
{
    sorting_sorts(s);
    assert(s.push(x).drop_last() =~= s);
    let line = sorted(s);
    if line.len() > 0 {
        assert(line.contains(line[line.len() - 1]));
        let k = choose|k: int| 0 <= k < s.len() && s[k] == line.last();
        assert(s[k].spec_rank() < x.spec_rank());
    }
}

/// Putting an item in keeps the order.
proof fn lemma_inserted<T: Ranked>(s: Seq<T>, x: T)
    requires
        ascending(s),
    ensures
        ascending(inserted(s, x)),
        inserted(s, x).len() == s.len() + 1,
        forall|y: T| #[trigger] inserted(s, x).contains(y) ==> y == x || s.contains(y),
    decreases s.len(),
{
    reveal(ascending);
    let out = inserted(s, x);
    if s.len() > 0 && s.last().spec_rank() > x.spec_rank() {
        let init = s.drop_last();
        assert(ascending(init)) by {
            assert forall|i: int, j: int|
                #![trigger init[i], init[j]]
                0 <= i < j < init.len() implies init[i].spec_rank() <= init[j].spec_rank() by {
                assert(s[i] == init[i] && s[j] == init[j]);
            }
        }
        lemma_inserted(init, x);
        let mid = inserted(init, x);
        assert forall|y: T| #[trigger] out.contains(y) implies y == x || s.contains(y) by {
            let k = choose|k: int| 0 <= k < out.len() && out[k] == y;
            if k < mid.len() {
                assert(mid[k] == y);
                assert(mid.contains(y));
                if y != x {
                    let m = choose|m: int| 0 <= m < init.len() && init[m] == y;
                    assert(s[m] == y);
                }
            } else {
                assert(s[s.len() - 1] == y);
            }
        }
        assert forall|i: int, j: int|
            #![trigger out[i], out[j]]
            0 <= i < j < out.len() implies out[i].spec_rank() <= out[j].spec_rank() by {
            assert(out[i] == mid[i]);
            if j < mid.len() {
                assert(out[j] == mid[j]);
            } else {
                assert(mid.contains(mid[i]));
                if mid[i] != x {
                    let m = choose|m: int| 0 <= m < init.len() && init[m] == mid[i];
                    assert(s[m] == mid[i] && s[s.len() - 1] == s.last());
                }
            }
        }
    } else {
        assert forall|i: int, j: int|
            #![trigger out[i], out[j]]
            0 <= i < j < out.len() implies out[i].spec_rank() <= out[j].spec_rank() by {
            assert(out[i] == s[i]);
            if j < s.len() {
                assert(out[j] == s[j]);
            } else {
                assert(s[s.len() - 1] == s.last());
                if i < s.len() - 1 {
                    assert(s[i].spec_rank() <= s[s.len() - 1].spec_rank());
                }
            }
        }
        assert forall|y: T| #[trigger] out.contains(y) implies y == x || s.contains(y) by {
            let k = choose|k: int| 0 <= k < out.len() && out[k] == y;
            if k < s.len() {
                assert(s[k] == y);
            }
        }
    }
}

/// Sorting gives ascending ranks, and nothing new.
pub proof fn sorting_sorts<T: Ranked>(s: Seq<T>)
    ensures
        ascending(sorted(s)),
        sorted(s).len() == s.len(),
        forall|y: T| #[trigger] sorted(s).contains(y) ==> s.contains(y),
    decreases s.len(),
{
    reveal(ascending);
    if s.len() > 0 {
        let init = s.drop_last();
        sorting_sorts(init);
        lemma_inserted(sorted(init), s.last());
        assert forall|y: T| #[trigger] sorted(s).contains(y) implies s.contains(y) by {
            if y == s.last() {
                assert(s[s.len() - 1] == y);
            } else {
                assert(sorted(init).contains(y));
                let k = choose|k: int| 0 <= k < init.len() && init[k] == y;
                assert(s[k] == y);
            }
        }
    }
}

proof fn lemma_inserted_holds<T: Ranked>(s: Seq<T>, x: T, y: T)
    requires
        y == x || s.contains(y),
    ensures
        inserted(s, x).contains(y),
    decreases s.len(),
{
    let out = inserted(s, x);
    if s.len() > 0 && s.last().spec_rank() > x.spec_rank() {
        let mid = inserted(s.drop_last(), x);
        if y == s.last() {
            assert(out[mid.len() as int] == y);
        } else {
            if y != x {
                let k = choose|k: int| 0 <= k < s.len() && s[k] == y;
                assert(s.drop_last()[k] == y);
            }
            lemma_inserted_holds(s.drop_last(), x, y);
            let k = choose|k: int| 0 <= k < mid.len() && mid[k] == y;
            assert(out[k] == y);
        }
    } else if y == x {
        assert(out[s.len() as int] == y);
    } else {
        let k = choose|k: int| 0 <= k < s.len() && s[k] == y;
        assert(out[k] == y);
    }
}

/// Sorting loses nothing.
pub proof fn sorting_keeps_members<T: Ranked>(s: Seq<T>, y: T)
    requires
        s.contains(y),
    ensures
        sorted(s).contains(y),
    decreases s.len(),
{
    let init = s.drop_last();
    if y != s.last() {
        let k = choose|k: int| 0 <= k < s.len() && s[k] == y;
        assert(init[k] == y);
        sorting_keeps_members(init, y);
    }
    lemma_inserted_holds(sorted(init), s.last(), y);
}

/// Filtering a sequence with one more item.
pub proof fn filter_of_push<T>(s: Seq<T>, x: T, keep: spec_fn(T) -> bool)
    ensures
        s.push(x).filter(keep) == if keep(x) {
            s.filter(keep).push(x)
        } else {
            s.filter(keep)
        },
{
    reveal(Seq::filter);
    assert(s.push(x).drop_last() =~= s);
}

proof fn lemma_filter_empty<T>(keep: spec_fn(T) -> bool)
    ensures
        Seq::<T>::empty().filter(keep) == Seq::<T>::empty(),
{
    reveal(Seq::filter);
}

/// Two pairs of filters that let the same items through give the same.
pub proof fn filters_agree<T>(
    s: Seq<T>,
    a: spec_fn(T) -> bool,
    b: spec_fn(T) -> bool,
    c: spec_fn(T) -> bool,
    d: spec_fn(T) -> bool,
)
    requires
        forall|x: T| (#[trigger] a(x) && b(x)) == (c(x) && d(x)),
    ensures
        s.filter(a).filter(b) == s.filter(c).filter(d),
    decreases s.len(),
{
    if s.len() > 0 {
        let init = s.drop_last();
        let x = s.last();
        filters_agree(init, a, b, c, d);
        assert(init.push(x) =~= s);
        filter_of_push(init, x, a);
        filter_of_push(init, x, c);
        filter_of_push(init.filter(a), x, b);
        filter_of_push(init.filter(c), x, d);
        assert((a(x) && b(x)) == (c(x) && d(x)));
    } else {
        assert(s =~= Seq::empty());
        lemma_filter_empty::<T>(a);
        lemma_filter_empty::<T>(b);
        lemma_filter_empty::<T>(c);
        lemma_filter_empty::<T>(d);
    }
}

/// Filtering and putting in commute.
proof fn lemma_inserted_filter<T: Ranked>(s: Seq<T>, x: T, keep: spec_fn(T) -> bool)
    requires
        ascending(s),
    ensures
        inserted(s, x).filter(keep) == if keep(x) {
            inserted(s.filter(keep), x)
        } else {
            s.filter(keep)
        },
    decreases s.len(),
{
    reveal(ascending);
    let init = s.drop_last();
    if s.len() > 0 {
        assert(init.push(s.last()) =~= s);
        filter_of_push(init, s.last(), keep);
    }
    if s.len() > 0 && s.last().spec_rank() > x.spec_rank() {
        assert(ascending(init)) by {
            assert forall|i: int, j: int|
                #![trigger init[i], init[j]]
                0 <= i < j < init.len() implies init[i].spec_rank() <= init[j].spec_rank() by {
                assert(s[i] == init[i] && s[j] == init[j]);
            }
        }
        lemma_inserted_filter(init, x, keep);
        filter_of_push(inserted(init, x), s.last(), keep);
        if keep(s.last()) && keep(x) {
            let f = s.filter(keep);
            assert(f.drop_last() =~= init.filter(keep));
            assert(f.last() == s.last());
        }
    } else {
        filter_of_push(s, x, keep);
        let f = s.filter(keep);
        if f.len() > 0 {
            history::filter_members(s, keep);
            assert(f[f.len() - 1] == f.last());
            assert(s.contains(f[f.len() - 1]));
            let k = choose|k: int| 0 <= k < s.len() && s[k] == f.last();
            assert(s[s.len() - 1] == s.last());
            if k < s.len() - 1 {
                assert(s[k].spec_rank() <= s[s.len() - 1].spec_rank());
            }
        }
    }
}

/// Filtering and sorting commute.
pub proof fn sorting_commutes_with_filtering<T: Ranked>(s: Seq<T>, keep: spec_fn(T) -> bool)
    ensures
        sorted(s).filter(keep) == sorted(s.filter(keep)),
    decreases s.len(),
{
    if s.len() > 0 {
        let init = s.drop_last();
        sorting_commutes_with_filtering(init, keep);
        sorting_sorts(init);
        lemma_inserted_filter(sorted(init), s.last(), keep);
        assert(init.push(s.last()) =~= s);
        filter_of_push(init, s.last(), keep);
        if keep(s.last()) {
            let f = s.filter(keep);
            assert(f.drop_last() =~= init.filter(keep));
            assert(f.last() == s.last());
        }
    } else {
        lemma_filter_empty::<T>(keep);
        assert(s =~= Seq::empty());
    }
}

/// An item that ranks below everything goes to the front.
proof fn lemma_insert_front<T: Ranked>(s: Seq<T>, x: T)
    requires
        forall|i: int| 0 <= i < s.len() ==> (#[trigger] s[i]).spec_rank() > x.spec_rank(),
    ensures
        inserted(s, x) == seq![x] + s,
    decreases s.len(),
{
    if s.len() > 0 {
        let init = s.drop_last();
        assert(s[s.len() - 1] == s.last());
        assert forall|i: int| 0 <= i < init.len() implies (#[trigger] init[i]).spec_rank()
            > x.spec_rank() by {
            assert(init[i] == s[i]);
        }
        lemma_insert_front(init, x);
        assert((seq![x] + init).push(s.last()) =~= seq![x] + s);
    } else {
        assert(s.push(x) =~= seq![x] + s);
    }
}

// ---- folding -------------------------------------------------------
/// `v` as a 64-bit number, cut at both ends of the range.
pub open spec fn saturated(v: int) -> i64 {
    if v > i64::MAX {
        i64::MAX
    } else if v < i64::MIN {
        i64::MIN
    } else {
        v as i64
    }
}

/// The value after one operation.
pub open spec fn stepped(v: i64, op: Op) -> i64 {
    match op.op {
        AspectOp::Assign => op.modifier,
        AspectOp::Inc => saturated(v + op.modifier),
        AspectOp::Dec => saturated(v - op.modifier),
    }
}

/// The value after operations in order, from `v` on.
pub open spec fn replayed(v: i64, ops: Seq<Op>) -> i64
    decreases ops.len(),
{
    if ops.len() == 0 {
        v
    } else {
        stepped(replayed(v, ops.drop_last()), ops.last())
    }
}

/// The operation has taken effect by `at`.
pub open spec fn due(at: u64) -> spec_fn(Op) -> bool {
    |op: Op| op.time <= at
}

/// The operation takes effect after `at`.
pub open spec fn after(at: u64) -> spec_fn(Op) -> bool {
    |op: Op| op.time > at
}

/// The value at `at` of an aspect with these operations, from 0.
pub open spec fn folded(ops: Seq<Op>, at: u64) -> i64 {
    replayed(0, sorted(ops.filter(due(at))))
}

/// `v` within `0..=max`.
pub open spec fn clamped(v: i64, max: u8) -> u8 {
    if v < 0 {
        0
    } else if v > max {
        max
    } else {
        v as u8
    }
}

fn step(v: i64, op: &Op) -> (out: i64)
    ensures
        out == stepped(v, *op),
{
    let wide: i128 = match op.op {
        AspectOp::Assign => {
            return op.modifier;
        },
        AspectOp::Inc => v as i128 + op.modifier as i128,
        AspectOp::Dec => v as i128 - op.modifier as i128,
    };
    if wide > i64::MAX as i128 {
        i64::MAX
    } else if wide < i64::MIN as i128 {
        i64::MIN
    } else {
        wide as i64
    }
}

/// The folded value as of `at`, neither clamped nor shifted.
pub fn fold(ops: &Vec<Op>, at: u64) -> (v: i64)
    ensures
        v == folded(ops@, at),
{
    let ghost keep = due(at);
    let mut picked: Vec<Op> = Vec::new();
    let mut i: usize = 0;
    proof {
        reveal(Seq::filter);
        assert(ops@.take(0).filter(keep) =~= Seq::empty());
    }
    while i < ops.len()
        invariant
            i <= ops.len(),
            keep == due(at),
            picked@ == ops@.take(i as int).filter(keep),
        decreases ops.len() - i,
    {
        proof {
            history::filter_take_step(ops@, i as int, keep);
        }
        let op: Op = ops[i];
        if op.time <= at {
            picked.push(op);
        }
        i = i + 1;
    }
    assert(ops@.take(ops.len() as int) =~= ops@);
    let line: Vec<Op> = sort(&picked);
    let mut v: i64 = 0;
    let mut k: usize = 0;
    assert(line@.take(0) =~= Seq::empty());
    while k < line.len()
        invariant
            k <= line.len(),
            v == replayed(0, line@.take(k as int)),
        decreases line.len() - k,
    {
        proof {
            let next = line@.take(k + 1);
            assert(next.drop_last() =~= line@.take(k as int));
            assert(next.last() == line@[k as int]);
        }
        v = step(v, &line[k]);
        k = k + 1;
    }
    assert(line@.take(line.len() as int) =~= line@);
    v
}

/// The folded value as of `at`, clamped to `0..=max`.
pub fn fold_clamped(ops: &Vec<Op>, at: u64, max: u8) -> (v: u8)
    ensures
        v == clamped(folded(ops@, at), max),
{
    let raw: i64 = fold(ops, at);
    if raw < 0 {
        0
    } else if raw > max as i64 {
        max
    } else {
        raw as u8
    }
}

proof fn lemma_all_due(s: Seq<Op>, w: u64)
    requires
        forall|i: int| 0 <= i < s.len() ==> (#[trigger] s[i]).time <= w,
    ensures
        s.filter(due(w)) == s,
        s.filter(after(w)) == Seq::<Op>::empty(),
    decreases s.len(),
{
    if s.len() > 0 {
        let init = s.drop_last();
        let x = s.last();
        assert(s[s.len() - 1] == x);
        assert forall|i: int| 0 <= i < init.len() implies (#[trigger] init[i]).time <= w by {
            assert(s[i] == init[i]);
        }
        lemma_all_due(init, w);
        assert(init.push(x) =~= s);
        filter_of_push(init, x, due(w));
        filter_of_push(init, x, after(w));
    } else {
        assert(s =~= Seq::empty());
        lemma_filter_empty::<Op>(due(w));
        lemma_filter_empty::<Op>(after(w));
    }
}

/// A sequence in order of time replays as what is due at a moment and then the
/// rest.
proof fn lemma_split(v: i64, s: Seq<Op>, w: u64)
    requires
        ascending(s),
    ensures
        replayed(v, s) == replayed(replayed(v, s.filter(due(w))), s.filter(after(w))),
    decreases s.len(),
{
    if s.len() == 0 || s.last().time <= w {
        assert forall|i: int| 0 <= i < s.len() implies (#[trigger] s[i]).time <= w by {
            reveal(ascending);
            assert(s[s.len() - 1] == s.last());
            if i < s.len() - 1 {
                assert(s[i].spec_rank() <= s[s.len() - 1].spec_rank());
            }
        }
        lemma_all_due(s, w);
    } else {
        let init = s.drop_last();
        let x = s.last();
        assert(ascending(init)) by {
            reveal(ascending);
            assert forall|i: int, j: int|
                #![trigger init[i], init[j]]
                0 <= i < j < init.len() implies init[i].spec_rank() <= init[j].spec_rank() by {
                assert(s[i] == init[i] && s[j] == init[j]);
            }
        }
        lemma_split(v, init, w);
        assert(init.push(x) =~= s);
        filter_of_push(init, x, due(w));
        filter_of_push(init, x, after(w));
        assert(init.filter(after(w)).push(x).drop_last() =~= init.filter(after(w)));
    }
}

/// A reset at the front makes what came before irrelevant.
proof fn lemma_replayed_reset(v: i64, mark: Op, b: Seq<Op>)
    requires
        mark.op == AspectOp::Assign,
    ensures
        replayed(v, seq![mark] + b) == replayed(mark.modifier, b),
    decreases b.len(),
{
    let s = seq![mark] + b;
    if b.len() > 0 {
        assert(s.drop_last() =~= seq![mark] + b.drop_last());
        assert(s.last() == b.last());
        lemma_replayed_reset(v, mark, b.drop_last());
    } else {
        assert(s.last() == mark);
    }
}

proof fn lemma_filter_twice(s: Seq<Op>, w: u64, at: u64)
    requires
        w <= at,
    ensures
        s.filter(due(at)).filter(due(w)) == s.filter(due(w)),
        s.filter(due(at)).filter(after(w)) == s.filter(after(w)).filter(due(at)),
    decreases s.len(),
{
    if s.len() > 0 {
        let init = s.drop_last();
        let x = s.last();
        lemma_filter_twice(init, w, at);
        assert(init.push(x) =~= s);
        filter_of_push(init, x, due(at));
        filter_of_push(init, x, due(w));
        filter_of_push(init, x, after(w));
        filter_of_push(init.filter(due(at)), x, due(w));
        filter_of_push(init.filter(due(at)), x, after(w));
        filter_of_push(init.filter(after(w)), x, due(at));
    } else {
        assert(s =~= Seq::empty());
        lemma_filter_empty::<Op>(due(at));
        lemma_filter_empty::<Op>(due(w));
        lemma_filter_empty::<Op>(after(w));
    }
}

/// The value at `at` is that at an earlier `w`, carried on.
proof fn lemma_carried_on(ops: Seq<Op>, w: u64, at: u64)
    requires
        w <= at,
    ensures
        folded(ops, at) == replayed(
            folded(ops, w),
            sorted(ops.filter(after(w)).filter(due(at))),
        ),
{
    let f = ops.filter(due(at));
    let all = sorted(f);
    sorting_sorts(f);
    lemma_split(0, all, w);
    sorting_commutes_with_filtering(f, due(w));
    sorting_commutes_with_filtering(f, after(w));
    lemma_filter_twice(ops, w, at);
}

proof fn lemma_all_after(ops: Seq<Op>, w: u64, at: u64)
    ensures
        forall|i: int|
            0 <= i < sorted(ops.filter(after(w)).filter(due(at))).len() ==> (
            #[trigger] sorted(ops.filter(after(w)).filter(due(at)))[i]).time > w,
{
    let tail = ops.filter(after(w));
    let f = tail.filter(due(at));
    let b = sorted(f);
    sorting_sorts(f);
    history::filter_members(ops, after(w));
    history::filter_members(tail, due(at));
    assert forall|i: int| 0 <= i < b.len() implies (#[trigger] b[i]).time > w by {
        assert(b.contains(b[i]));
        let k = choose|k: int| 0 <= k < f.len() && f[k] == b[i];
        assert(tail.contains(f[k]));
        let m = choose|m: int| 0 <= m < tail.len() && tail[m] == f[k];
        assert(after(w)(tail[m]));
    }
}

/// What happened up to a moment can be replaced by a single reset to the value
/// then, or by nothing where that value is 0: every later value stays.
pub proof fn checkpoint_keeps_the_future(ops: Seq<Op>, w: u64, at: u64)
    requires
        w <= at,
    ensures
        folded(
            ops.filter(after(w)).push(
                Op { time: w, op: AspectOp::Assign, modifier: folded(ops, w) },
            ),
            at,
        ) == folded(ops, at),
        folded(ops, w) == 0 ==> folded(ops.filter(after(w)), at) == folded(ops, at),
{
    let v = folded(ops, w);
    let mark = Op { time: w, op: AspectOp::Assign, modifier: v };
    let tail = ops.filter(after(w));
    let f = tail.filter(due(at));
    let b = sorted(f);
    lemma_carried_on(ops, w, at);
    lemma_all_after(ops, w, at);
    filter_of_push(tail, mark, due(at));
    assert(f.push(mark).drop_last() =~= f);
    assert(f.push(mark).last() == mark);
    lemma_insert_front(b, mark);
    lemma_replayed_reset(0, mark, b);
}

} // verus!
