//! The log of timed operations on stock aspects.
//!
//! The log is the record; the `stock` word of card rows shows what it folds to.
use vstd::prelude::*;

use crate::history;
use crate::packed;
use crate::shard::cards;
use crate::shard::cards::Card;
use crate::shard::laws;
use crate::shard::replay;
use crate::shard::replay::AspectOp;
use crate::shard::replay::Op;
use crate::shard::replay::Ranked;
use crate::shard::tables::Db;
use crate::shard::tables::Env;
use crate::shard::tables::Tables;

verus! {

/// One recorded operation against a `(card_id, aspect_id)`.
#[derive(Clone, Copy, Debug, PartialEq, Eq, Structural)]
pub struct OpLog {
    /// Ascending in the order of recording.
    pub id: u64,
    pub card_id: u32,
    pub aspect_id: u8,
    /// Effect time in milliseconds; may lie in the future.
    pub time_ms: u64,
    pub op: u8,
    pub modifier: i64,
}

impl Ranked for OpLog {
    open spec fn spec_rank(self) -> u64 {
        self.id
    }

    fn rank(&self) -> (k: u64) {
        self.id
    }
}

// ---- aspects -------------------------------------------------------
/// An aspect and where its value lies in the stock word.
#[derive(Clone, Copy, Debug, PartialEq, Eq, Structural)]
pub struct StockAspect {
    pub id: u8,
    pub shift: u32,
    pub width: u32,
}

/// The bits of a field of `width` bits at the bottom of a word.
pub open spec fn low_bits(width: u32) -> u64 {
    ((1u64 << width) - 1) as u64
}

/// A stock word with the field of an aspect replaced.
pub open spec fn field_set(stock: u64, a: StockAspect, v: u8) -> u64 {
    (stock & !(low_bits(a.width) << a.shift)) | ((v as u64 & low_bits(a.width)) << a.shift)
}

/// The field of an aspect in a stock word.
pub open spec fn field_get(stock: u64, a: StockAspect) -> u64 {
    (stock >> a.shift) & low_bits(a.width)
}

impl StockAspect {
    /// The field has one to eight bits inside the word.
    pub open spec fn wf(self) -> bool {
        &&& 1 <= self.width <= 8
        &&& self.shift + self.width <= 64
    }

    /// The greatest value of the field.
    pub fn max(&self) -> (m: u8)
        requires
            self.wf(),
        ensures
            m == low_bits(self.width),
    {
        let width: u32 = self.width;
        proof {
            lemma_widths(width);
        }
        ((1u64 << width) - 1) as u8
    }

    /// Write the field into a stock word.
    pub fn set_in(&self, stock: u64, v: u8) -> (out: u64)
        requires
            self.wf(),
        ensures
            out == field_set(stock, *self, v),
    {
        let width: u32 = self.width;
        proof {
            lemma_widths(width);
        }
        let low: u64 = (1u64 << width) - 1;
        (stock & !(low << self.shift)) | ((v as u64 & low) << self.shift)
    }
}

/// A field of up to eight bits holds what a byte holds.
pub proof fn lemma_widths(width: u32)
    by (bit_vector)
    requires
        1 <= width <= 8,
    ensures
        1 <= (1u64 << width) <= 256,
{
}

proof fn lemma_field_bits(stock: u64, shift: u32, width: u32, v: u64, low: u64)
    by (bit_vector)
    requires
        1 <= width <= 8,
        shift + width <= 64,
        low == (1u64 << width) - 1,
        v <= low,
    ensures
        (((stock & !(low << shift)) | ((v & low) << shift)) >> shift) & low == v,
        ((stock & !(low << shift)) | ((v & low) << shift)) & !(low << shift) == stock & !(low
            << shift),
{
}

/// A field reads back what was written, and writing it leaves every other bit of
/// the stock word alone.
pub proof fn field_read_over_write(stock: u64, a: StockAspect, v: u8)
    requires
        a.wf(),
        v <= low_bits(a.width),
    ensures
        field_get(field_set(stock, a, v), a) == v,
        field_set(stock, a, v) & !(low_bits(a.width) << a.shift) == stock & !(low_bits(a.width)
            << a.shift),
{
    lemma_widths(a.width);
    lemma_field_bits(stock, a.shift, a.width, v as u64, low_bits(a.width));
}

// ---- reading the log -----------------------------------------------
/// The record is about an aspect of a card.
pub open spec fn about(card_id: u32, aspect_id: u8) -> spec_fn(OpLog) -> bool {
    |r: OpLog| r.card_id == card_id && r.aspect_id == aspect_id
}

/// The operations of records in order; those with an unknown code do not count.
pub open spec fn ops_in(rows: Seq<OpLog>) -> Seq<Op>
    decreases rows.len(),
{
    if rows.len() == 0 {
        Seq::empty()
    } else {
        let before = ops_in(rows.drop_last());
        let r = rows.last();
        match AspectOp::spec_from_code(r.op) {
            Some(op) => before.push(Op { time: r.time_ms, op, modifier: r.modifier }),
            None => before,
        }
    }
}

/// The operations on an aspect of a card, in the order of recording.
pub open spec fn ops_on(log: Seq<OpLog>, card_id: u32, aspect_id: u8) -> Seq<Op> {
    ops_in(replay::sorted(log.filter(about(card_id, aspect_id))))
}

/// The value of an aspect of a card as of `at`.
pub open spec fn value_at(log: Seq<OpLog>, card_id: u32, aspect_id: u8, at: u64) -> i64 {
    replay::folded(ops_on(log, card_id, aspect_id), at)
}

/// The value of an aspect as it fits its stock field.
pub open spec fn field_value_at(log: Seq<OpLog>, card_id: u32, a: StockAspect, at: u64) -> u8 {
    replay::clamped(value_at(log, card_id, a.id, at), low_bits(a.width) as u8)
}

fn rows_about(log: &Vec<OpLog>, card_id: u32, aspect_id: u8) -> (rows: Vec<OpLog>)
    ensures
        rows@ == log@.filter(about(card_id, aspect_id)),
{
    let ghost keep = about(card_id, aspect_id);
    let mut out: Vec<OpLog> = Vec::new();
    let mut i: usize = 0;
    proof {
        reveal(Seq::filter);
        assert(log@.take(0).filter(keep) =~= Seq::empty());
    }
    while i < log.len()
        invariant
            i <= log.len(),
            keep == about(card_id, aspect_id),
            out@ == log@.take(i as int).filter(keep),
        decreases log.len() - i,
    {
        proof {
            history::filter_take_step(log@, i as int, keep);
        }
        let r = log[i];
        if r.card_id == card_id && r.aspect_id == aspect_id {
            out.push(r);
        }
        i = i + 1;
    }
    assert(log@.take(log.len() as int) =~= log@);
    out
}

fn decode(rows: &Vec<OpLog>) -> (ops: Vec<Op>)
    ensures
        ops@ == ops_in(rows@),
{
    let mut ops: Vec<Op> = Vec::new();
    let mut i: usize = 0;
    while i < rows.len()
        invariant
            i <= rows.len(),
            ops@ == ops_in(rows@.take(i as int)),
        decreases rows.len() - i,
    {
        proof {
            let next = rows@.take(i + 1);
            assert(next.drop_last() =~= rows@.take(i as int));
            assert(next.last() == rows@[i as int]);
        }
        let r = rows[i];
        if let Some(op) = AspectOp::from_code(r.op) {
            ops.push(Op { time: r.time_ms, op, modifier: r.modifier });
        }
        i = i + 1;
    }
    assert(rows@.take(rows.len() as int) =~= rows@);
    ops
}

fn ops_for(tb: &Tables, card_id: u32, aspect_id: u8) -> (ops: Vec<Op>)
    ensures
        ops@ == ops_on(tb@.op_log, card_id, aspect_id),
{
    let rows: Vec<OpLog> = rows_about(&tb.op_log, card_id, aspect_id);
    decode(&replay::sort(&rows))
}

/// The folded value of an aspect as of `at`.
pub fn value_as_of(tb: &Tables, card_id: u32, aspect: &StockAspect, at: u64) -> (v: i64)
    ensures
        v == value_at(tb@.op_log, card_id, aspect.id, at),
{
    replay::fold(&ops_for(tb, card_id, aspect.id), at)
}

/// The folded value of an aspect as of `at`, clamped into its stock field.
pub fn field_value_as_of(tb: &Tables, card_id: u32, aspect: &StockAspect, at: u64) -> (v: u8)
    requires
        aspect.wf(),
    ensures
        v == field_value_at(tb@.op_log, card_id, *aspect, at),
{
    let max: u8 = aspect.max();
    replay::fold_clamped(&ops_for(tb, card_id, aspect.id), at, max)
}

// ---- recording -----------------------------------------------------
pub open spec fn ids_below(log: Seq<OpLog>, next_id: u64) -> bool {
    forall|i: int| 0 <= i < log.len() ==> (#[trigger] log[i]).id < next_id
}

/// The invariant of the log: every recorded operation was numbered before the next
/// one will be.
pub open spec fn numbered(db: Db) -> bool {
    ids_below(db.op_log, db.next_op_id)
}

/// `db` with one operation recorded.
pub open spec fn appended(
    db: Db,
    card_id: u32,
    aspect_id: u8,
    time_ms: u64,
    op: AspectOp,
    modifier: i64,
) -> Db {
    Db {
        op_log: db.op_log.push(
            OpLog { id: db.next_op_id, card_id, aspect_id, time_ms, op: op.spec_code(), modifier },
        ),
        next_op_id: (db.next_op_id + 1) as u64,
        ..db
    }
}

/// Record an operation that takes effect at `time_ms`.
pub fn append(
    tb: &mut Tables,
    card_id: u32,
    aspect: &StockAspect,
    time_ms: u64,
    op: AspectOp,
    modifier: i64,
)
    requires
        numbered(old(tb)@),
        old(tb).next_op_id < u64::MAX,
    ensures
        numbered(final(tb)@),
        final(tb)@ == appended(old(tb)@, card_id, aspect.id, time_ms, op, modifier),
{
    let id: u64 = tb.next_op_id;
    tb.op_log.push(
        OpLog { id, card_id, aspect_id: aspect.id, time_ms, op: op.code(), modifier },
    );
    tb.next_op_id = id + 1;
}

/// The operation of a step by one.
pub open spec fn step_op(increment: bool) -> AspectOp {
    if increment {
        AspectOp::Inc
    } else {
        AspectOp::Dec
    }
}

/// Record a step by one.
pub fn append_delta(
    tb: &mut Tables,
    card_id: u32,
    aspect: &StockAspect,
    time_ms: u64,
    increment: bool,
)
    requires
        numbered(old(tb)@),
        old(tb).next_op_id < u64::MAX,
    ensures
        numbered(final(tb)@),
        final(tb)@ == appended(old(tb)@, card_id, aspect.id, time_ms, step_op(increment), 1),
{
    let op: AspectOp = if increment {
        AspectOp::Inc
    } else {
        AspectOp::Dec
    };
    append(tb, card_id, aspect, time_ms, op, 1);
}

// ---- showing the log on card rows ----------------------------------
/// A card row with the field of an aspect set.
pub open spec fn shown(a: StockAspect, v: u8) -> spec_fn(Card) -> Card {
    |c: Card| Card { stock: field_set(c.stock, a, v), ..c }
}

/// A card row with the field of an aspect as it is when the row comes into force.
pub open spec fn shown_then(log: Seq<OpLog>, card_id: u32, a: StockAspect) -> spec_fn(Card) -> Card {
    |c: Card|
        Card {
            stock: field_set(c.stock, a, field_value_at(log, card_id, a, history::time(c))),
            ..c
        }
}

/// `db` with an aspect of a card brought up to date from `from` on: on the row in
/// force then, which is stored anew, and on every later row.
pub open spec fn materialized(e: Env, db: Db, card_id: u32, a: StockAspect, from: u64) -> Db {
    let d = cards::edited(
        e,
        db,
        card_id,
        from,
        shown(a, field_value_at(db.op_log, card_id, a, from)),
    );
    Db {
        cards: history::on_future(d.cards, card_id, from, shown_then(d.op_log, card_id, a)),
        ..d
    }
}

/// Bring an aspect of a card up to date from `from_time` on.
pub fn materialize_aspect(
    e: &Env,
    tb: &mut Tables,
    card_id: u32,
    aspect: &StockAspect,
    from_time: u64,
)
    requires
        aspect.wf(),
    ensures
        final(tb)@ == materialized(*e, old(tb)@, card_id, *aspect, from_time),
{
    let v: u8 = field_value_as_of(tb, card_id, aspect, from_time);
    if let Some(found) = cards::prior_at(tb, card_id, from_time) {
        let mut c = found;
        c.stock = aspect.set_in(found.stock, v);
        let _ = cards::write_at(e, tb, c, from_time);
    }
    let ghost before = tb@;
    let ghost goal = history::on_future(
        before.cards,
        card_id,
        from_time,
        shown_then(before.op_log, card_id, *aspect),
    );
    let mut i: usize = 0;
    while i < tb.cards.len()
        invariant
            i <= tb.cards.len(),
            aspect.wf(),
            tb.cards.len() == before.cards.len(),
            tb@ == (Db { cards: tb@.cards, ..before }),
            goal == history::on_future(
                before.cards,
                card_id,
                from_time,
                shown_then(before.op_log, card_id, *aspect),
            ),
            forall|j: int| 0 <= j < i ==> #[trigger] tb@.cards[j] == goal[j],
            forall|j: int|
                i <= j < before.cards.len() ==> #[trigger] tb@.cards[j] == before.cards[j],
        decreases tb.cards.len() - i,
    {
        let mut row = tb.cards[i];
        let at: u64 = packed::valid_at_time(row.valid_at);
        if row.card_id == card_id && at > from_time {
            let fv: u8 = field_value_as_of(tb, card_id, aspect, at);
            row.stock = aspect.set_in(row.stock, fv);
            tb.cards.set(i, row);
        }
        i = i + 1;
    }
    assert(tb@.cards =~= goal);
}

proof fn lemma_materializing_keeps_the_log(
    e: Env,
    db: Db,
    card_id: u32,
    a: StockAspect,
    from: u64,
)
    ensures
        materialized(e, db, card_id, a, from).op_log == db.op_log,
        materialized(e, db, card_id, a, from).next_op_id == db.next_op_id,
{
    if let Some(c) = history::prior_at(db.cards, card_id, from) {
        let v = field_value_at(db.op_log, card_id, a, from);
        laws::card_writes_stay_with_cards(e, db, shown(a, v)(c), from, cards::cascade_depth(db));
    }
}

/// Record an operation and bring the card rows up to date.
pub fn apply_op(
    e: &Env,
    tb: &mut Tables,
    card_id: u32,
    aspect: &StockAspect,
    time_ms: u64,
    op: AspectOp,
    modifier: i64,
)
    requires
        aspect.wf(),
        numbered(old(tb)@),
        old(tb).next_op_id < u64::MAX,
    ensures
        numbered(final(tb)@),
        final(tb)@ == materialized(
            *e,
            appended(old(tb)@, card_id, aspect.id, time_ms, op, modifier),
            card_id,
            *aspect,
            time_ms,
        ),
{
    append(tb, card_id, aspect, time_ms, op, modifier);
    proof {
        lemma_materializing_keeps_the_log(*e, tb@, card_id, *aspect, time_ms);
    }
    materialize_aspect(e, tb, card_id, aspect, time_ms);
}

/// Record a step by one and bring the card rows up to date.
pub fn apply_delta(
    e: &Env,
    tb: &mut Tables,
    card_id: u32,
    aspect: &StockAspect,
    time_ms: u64,
    increment: bool,
)
    requires
        aspect.wf(),
        numbered(old(tb)@),
        old(tb).next_op_id < u64::MAX,
    ensures
        numbered(final(tb)@),
        final(tb)@ == materialized(
            *e,
            appended(old(tb)@, card_id, aspect.id, time_ms, step_op(increment), 1),
            card_id,
            *aspect,
            time_ms,
        ),
{
    let op: AspectOp = if increment {
        AspectOp::Inc
    } else {
        AspectOp::Dec
    };
    apply_op(e, tb, card_id, aspect, time_ms, op, 1);
}

// ---- compaction ----------------------------------------------------
/// Card and aspect as one number, by which groups are ordered.
pub open spec fn group_key(card_id: u32, aspect_id: u8) -> u64 {
    (card_id * 256 + aspect_id) as u64
}

/// The groups of a log, each once, in order of first mention.
pub open spec fn groups(log: Seq<OpLog>) -> Seq<u64>
    decreases log.len(),
{
    if log.len() == 0 {
        Seq::empty()
    } else {
        let before = groups(log.drop_last());
        let k = group_key(log.last().card_id, log.last().aspect_id);
        if before.contains(k) {
            before
        } else {
            before.push(k)
        }
    }
}

pub open spec fn settled_by(w: u64) -> spec_fn(OpLog) -> bool {
    |r: OpLog| r.time_ms <= w
}

/// The record is not a settled one of the group.
pub open spec fn survives(card_id: u32, aspect_id: u8, w: u64) -> spec_fn(OpLog) -> bool {
    |r: OpLog| !(r.card_id == card_id && r.aspect_id == aspect_id && r.time_ms <= w)
}

/// The settled records of a group are one reset already, or there are none.
pub open spec fn is_compact(log: Seq<OpLog>, card_id: u32, aspect_id: u8, w: u64) -> bool {
    let settled = log.filter(about(card_id, aspect_id)).filter(settled_by(w));
    settled.len() == 0 || (settled.len() == 1 && AspectOp::spec_from_code(settled[0].op) == Some(
        AspectOp::Assign,
    ))
}

/// Log and next id after collapsing one group: the settled records give way to
/// one reset to the value at `w`, or to nothing where that is 0.
pub open spec fn group_compacted(
    log: Seq<OpLog>,
    next_id: u64,
    card_id: u32,
    aspect_id: u8,
    w: u64,
) -> (Seq<OpLog>, u64) {
    if is_compact(log, card_id, aspect_id, w) {
        (log, next_id)
    } else {
        let v = value_at(log, card_id, aspect_id, w);
        let kept = log.filter(survives(card_id, aspect_id, w));
        if v == 0 {
            (kept, next_id)
        } else {
            (
                kept.push(
                    OpLog {
                        id: next_id,
                        card_id,
                        aspect_id,
                        time_ms: w,
                        op: AspectOp::Assign.spec_code(),
                        modifier: v,
                    },
                ),
                (next_id + 1) as u64,
            )
        }
    }
}

/// Log and next id after collapsing groups one after the other.
pub open spec fn groups_compacted(log: Seq<OpLog>, next_id: u64, keys: Seq<u64>, w: u64) -> (
    Seq<OpLog>,
    u64,
)
    decreases keys.len(),
{
    if keys.len() == 0 {
        (log, next_id)
    } else {
        let before = groups_compacted(log, next_id, keys.drop_last(), w);
        group_compacted(
            before.0,
            before.1,
            (keys.last() / 256) as u32,
            (keys.last() % 256) as u8,
            w,
        )
    }
}

fn find_groups(log: &Vec<OpLog>) -> (keys: Vec<u64>)
    ensures
        keys@ == groups(log@),
        keys.len() <= log.len(),
{
    let mut keys: Vec<u64> = Vec::new();
    let mut i: usize = 0;
    while i < log.len()
        invariant
            i <= log.len(),
            keys.len() <= i,
            keys@ == groups(log@.take(i as int)),
        decreases log.len() - i,
    {
        proof {
            let next = log@.take(i + 1);
            assert(next.drop_last() =~= log@.take(i as int));
            assert(next.last() == log@[i as int]);
        }
        let r = log[i];
        let k: u64 = r.card_id as u64 * 256 + r.aspect_id as u64;
        let mut known: bool = false;
        let mut j: usize = 0;
        while j < keys.len()
            invariant
                j <= keys.len(),
                known == exists|x: int| 0 <= x < j && #[trigger] keys@[x] == k,
            decreases keys.len() - j,
        {
            if keys[j] == k {
                assert(keys@[j as int] == k);
                known = true;
            }
            j = j + 1;
        }
        assert(known == keys@.contains(k));
        if !known {
            keys.push(k);
        }
        i = i + 1;
    }
    assert(log@.take(log.len() as int) =~= log@);
    keys
}

fn settled_of(rows: &Vec<OpLog>, watermark: u64) -> (settled: Vec<OpLog>)
    ensures
        settled@ == rows@.filter(settled_by(watermark)),
{
    let ghost keep = settled_by(watermark);
    let mut out: Vec<OpLog> = Vec::new();
    let mut i: usize = 0;
    proof {
        reveal(Seq::filter);
        assert(rows@.take(0).filter(keep) =~= Seq::empty());
    }
    while i < rows.len()
        invariant
            i <= rows.len(),
            keep == settled_by(watermark),
            out@ == rows@.take(i as int).filter(keep),
        decreases rows.len() - i,
    {
        proof {
            history::filter_take_step(rows@, i as int, keep);
        }
        let r = rows[i];
        if r.time_ms <= watermark {
            out.push(r);
        }
        i = i + 1;
    }
    assert(rows@.take(rows.len() as int) =~= rows@);
    out
}

fn remove_settled(log: &mut Vec<OpLog>, card_id: u32, aspect_id: u8, watermark: u64)
    ensures
        final(log)@ == old(log)@.filter(survives(card_id, aspect_id, watermark)),
{
    let ghost all = log@;
    let ghost keep = survives(card_id, aspect_id, watermark);
    let mut kept: Vec<OpLog> = Vec::new();
    let mut i: usize = 0;
    proof {
        reveal(Seq::filter);
        assert(all.take(0).filter(keep) =~= Seq::empty());
    }
    while i < log.len()
        invariant
            i <= log.len(),
            log@ == all,
            keep == survives(card_id, aspect_id, watermark),
            kept@ == all.take(i as int).filter(keep),
        decreases log.len() - i,
    {
        proof {
            history::filter_take_step(all, i as int, keep);
        }
        let r = log[i];
        if !(r.card_id == card_id && r.aspect_id == aspect_id && r.time_ms <= watermark) {
            kept.push(r);
        }
        i = i + 1;
    }
    assert(all.take(all.len() as int) =~= all);
    *log = kept;
}

fn compact_group(log: &mut Vec<OpLog>, next_id: &mut u64, card_id: u32, aspect_id: u8, watermark: u64)
    requires
        *old(next_id) < u64::MAX,
    ensures
        (final(log)@, *final(next_id)) == group_compacted(
            old(log)@,
            *old(next_id),
            card_id,
            aspect_id,
            watermark,
        ),
        *final(next_id) <= *old(next_id) + 1,
{
    let rows: Vec<OpLog> = rows_about(log, card_id, aspect_id);
    let settled: Vec<OpLog> = settled_of(&rows, watermark);
    if settled.len() == 0 {
        return;
    }
    if settled.len() == 1 {
        let code: Option<AspectOp> = AspectOp::from_code(settled[0].op);
        if let Some(AspectOp::Assign) = code {
            return;
        }
    }
    let value: i64 = replay::fold(&decode(&replay::sort(&rows)), watermark);
    remove_settled(log, card_id, aspect_id, watermark);
    if value != 0 {
        let id: u64 = *next_id;
        log.push(
            OpLog {
                id,
                card_id,
                aspect_id,
                time_ms: watermark,
                op: AspectOp::Assign.code(),
                modifier: value,
            },
        );
        *next_id = id + 1;
    }
}

/// `db` with the settled operations of every group collapsed.
pub open spec fn compacted(db: Db, w: u64) -> Db {
    let c = groups_compacted(db.op_log, db.next_op_id, replay::sorted(groups(db.op_log)), w);
    Db { op_log: c.0, next_op_id: c.1, ..db }
}

/// Collapse the settled operations, those up to the watermark, of each aspect of
/// each card into one reset, so that no fold replays unbounded history. A hold
/// that was taken and given back leaves nothing behind.
pub fn compact(tb: &mut Tables, watermark: u64)
    requires
        numbered(old(tb)@),
        old(tb).next_op_id + old(tb).op_log.len() <= u64::MAX,
    ensures
        numbered(final(tb)@),
        final(tb)@ == compacted(old(tb)@, watermark),
{
    let ghost start = tb@;
    let found: Vec<u64> = find_groups(&tb.op_log);
    let keys: Vec<u64> = replay::sort(&found);
    proof {
        replay::sorting_sorts(found@);
    }
    let mut i: usize = 0;
    assert(keys@.take(0) =~= Seq::empty());
    while i < keys.len()
        invariant
            i <= keys.len(),
            keys.len() <= start.op_log.len(),
            start.next_op_id + start.op_log.len() <= u64::MAX,
            tb@ == (Db { op_log: tb@.op_log, next_op_id: tb@.next_op_id, ..start }),
            (tb@.op_log, tb@.next_op_id) == groups_compacted(
                start.op_log,
                start.next_op_id,
                keys@.take(i as int),
                watermark,
            ),
            tb.next_op_id <= start.next_op_id + i,
        decreases keys.len() - i,
    {
        proof {
            let next = keys@.take(i + 1);
            assert(next.drop_last() =~= keys@.take(i as int));
            assert(next.last() == keys@[i as int]);
        }
        let k: u64 = keys[i];
        compact_group(
            &mut tb.op_log,
            &mut tb.next_op_id,
            (k / 256) as u32,
            (k % 256) as u8,
            watermark,
        );
        i = i + 1;
    }
    assert(keys@.take(keys.len() as int) =~= keys@);
    proof {
        compaction_keeps_values(start, watermark, 0, 0, u64::MAX);
    }
}

// ---- laws ----------------------------------------------------------
/// The operations after the watermark.
pub open spec fn live_after(w: u64) -> spec_fn(OpLog) -> bool {
    |r: OpLog| r.time_ms > w
}

proof fn lemma_ops_after(rows: Seq<OpLog>, w: u64)
    ensures
        ops_in(rows.filter(live_after(w))) == ops_in(rows).filter(replay::after(w)),
    decreases rows.len(),
{
    if rows.len() > 0 {
        let init = rows.drop_last();
        let r = rows.last();
        lemma_ops_after(init, w);
        assert(init.push(r) =~= rows);
        replay::filter_of_push(init, r, live_after(w));
        let f = init.filter(live_after(w));
        assert(f.push(r).drop_last() =~= f);
        if let Some(op) = AspectOp::spec_from_code(r.op) {
            let o = Op { time: r.time_ms, op, modifier: r.modifier };
            replay::filter_of_push(ops_in(init), o, replay::after(w));
        }
    } else {
        reveal(Seq::filter);
        assert(rows.filter(live_after(w)) =~= Seq::empty());
        assert(ops_in(rows).filter(replay::after(w)) =~= Seq::empty());
    }
}

proof fn lemma_kept_ops(log: Seq<OpLog>, card_id: u32, aspect_id: u8, w: u64)
    ensures
        ops_on(log.filter(survives(card_id, aspect_id, w)), card_id, aspect_id) == ops_on(
            log,
            card_id,
            aspect_id,
        ).filter(replay::after(w)),
{
    let mine = about(card_id, aspect_id);
    replay::filters_agree(log, survives(card_id, aspect_id, w), mine, mine, live_after(w));
    let g = log.filter(mine);
    replay::sorting_commutes_with_filtering(g, live_after(w));
    lemma_ops_after(replay::sorted(g), w);
}

proof fn lemma_other_ops(log: Seq<OpLog>, card_id: u32, aspect_id: u8, w: u64, c: u32, a: u8)
    requires
        !(c == card_id && a == aspect_id),
    ensures
        log.filter(survives(card_id, aspect_id, w)).filter(about(c, a)) == log.filter(about(c, a)),
{
    let mine = about(c, a);
    replay::filters_agree(log, survives(card_id, aspect_id, w), mine, mine, mine);
    lemma_filter_idempotent(log, mine);
}

proof fn lemma_filter_idempotent(log: Seq<OpLog>, keep: spec_fn(OpLog) -> bool)
    ensures
        log.filter(keep).filter(keep) == log.filter(keep),
    decreases log.len(),
{
    if log.len() > 0 {
        let init = log.drop_last();
        lemma_filter_idempotent(init, keep);
        assert(init.push(log.last()) =~= log);
        replay::filter_of_push(init, log.last(), keep);
        replay::filter_of_push(init.filter(keep), log.last(), keep);
    } else {
        reveal(Seq::filter);
        assert(log.filter(keep) =~= Seq::empty());
        assert(log.filter(keep).filter(keep) =~= Seq::empty());
    }
}

proof fn lemma_filter_ids(log: Seq<OpLog>, keep: spec_fn(OpLog) -> bool, next_id: u64)
    requires
        ids_below(log, next_id),
    ensures
        ids_below(log.filter(keep), next_id),
{
    history::filter_members(log, keep);
    let f = log.filter(keep);
    assert forall|i: int| 0 <= i < f.len() implies (#[trigger] f[i]).id < next_id by {
        assert(log.contains(f[i]));
        let k = choose|k: int| 0 <= k < log.len() && log[k] == f[i];
        assert(log[k].id < next_id);
    }
}

/// Collapsing one group changes no value of any aspect from the watermark on.
proof fn lemma_group_keeps_values(
    log: Seq<OpLog>,
    next_id: u64,
    card_id: u32,
    aspect_id: u8,
    w: u64,
    c: u32,
    a: u8,
    at: u64,
)
    requires
        w <= at,
        ids_below(log, next_id),
        next_id < u64::MAX,
    ensures
        ({
            let g = group_compacted(log, next_id, card_id, aspect_id, w);
            &&& value_at(g.0, c, a, at) == value_at(log, c, a, at)
            &&& ids_below(g.0, g.1)
            &&& g.1 <= next_id + 1
        }),
{
    if !is_compact(log, card_id, aspect_id, w) {
        let v = value_at(log, card_id, aspect_id, w);
        let kept = log.filter(survives(card_id, aspect_id, w));
        let mark = OpLog {
            id: next_id,
            card_id,
            aspect_id,
            time_ms: w,
            op: AspectOp::Assign.spec_code(),
            modifier: v,
        };
        let mine = about(c, a);
        lemma_filter_ids(log, survives(card_id, aspect_id, w), next_id);
        replay::filter_of_push(kept, mark, mine);
        let g = group_compacted(log, next_id, card_id, aspect_id, w);
        assert forall|i: int| 0 <= i < g.0.len() implies (#[trigger] g.0[i]).id < g.1 by {
            if i < kept.len() {
                assert(g.0[i] == kept[i]);
            }
        }
        if c == card_id && a == aspect_id {
            lemma_kept_ops(log, card_id, aspect_id, w);
            replay::checkpoint_keeps_the_future(ops_on(log, card_id, aspect_id), w, at);
            let rows = kept.filter(mine);
            lemma_filter_ids(kept, mine, next_id);
            assert forall|i: int| 0 <= i < rows.len() implies (#[trigger] rows[i]).spec_rank()
                < mark.spec_rank() by {}
            replay::insert_at_the_end(rows, mark);
            let line = replay::sorted(rows);
            assert(line.push(mark).drop_last() =~= line);
            replay::code_round_trip(AspectOp::Assign);
        } else {
            lemma_other_ops(log, card_id, aspect_id, w, c, a);
        }
    }
}

proof fn lemma_groups_keep_values(
    log: Seq<OpLog>,
    next_id: u64,
    keys: Seq<u64>,
    w: u64,
    c: u32,
    a: u8,
    at: u64,
)
    requires
        w <= at,
        ids_below(log, next_id),
        next_id + keys.len() <= u64::MAX,
    ensures
        ({
            let g = groups_compacted(log, next_id, keys, w);
            &&& value_at(g.0, c, a, at) == value_at(log, c, a, at)
            &&& ids_below(g.0, g.1)
            &&& g.1 <= next_id + keys.len()
        }),
    decreases keys.len(),
{
    if keys.len() > 0 {
        let init = keys.drop_last();
        lemma_groups_keep_values(log, next_id, init, w, c, a, at);
        let before = groups_compacted(log, next_id, init, w);
        lemma_group_keeps_values(
            before.0,
            before.1,
            (keys.last() / 256) as u32,
            (keys.last() % 256) as u8,
            w,
            c,
            a,
            at,
        );
    }
}

proof fn lemma_groups_len(log: Seq<OpLog>)
    ensures
        groups(log).len() <= log.len(),
    decreases log.len(),
{
    if log.len() > 0 {
        lemma_groups_len(log.drop_last());
    }
}

/// Compacting changes no value from the watermark on: every aspect of every card
/// folds to what it did before.
pub proof fn compaction_keeps_values(db: Db, w: u64, card_id: u32, aspect_id: u8, at: u64)
    requires
        w <= at,
        numbered(db),
        db.next_op_id + db.op_log.len() <= u64::MAX,
    ensures
        value_at(compacted(db, w).op_log, card_id, aspect_id, at) == value_at(
            db.op_log,
            card_id,
            aspect_id,
            at,
        ),
        numbered(compacted(db, w)),
{
    lemma_groups_len(db.op_log);
    replay::sorting_sorts(groups(db.op_log));
    lemma_groups_keep_values(
        db.op_log,
        db.next_op_id,
        replay::sorted(groups(db.op_log)),
        w,
        card_id,
        aspect_id,
        at,
    );
}

/// A group that was collapsed holds at most one settled record, a reset; where the
/// value was 0 it holds none.
pub proof fn collapsed_groups_are_compact(
    log: Seq<OpLog>,
    next_id: u64,
    card_id: u32,
    aspect_id: u8,
    w: u64,
)
    ensures
        is_compact(group_compacted(log, next_id, card_id, aspect_id, w).0, card_id, aspect_id, w),
        !is_compact(log, card_id, aspect_id, w) && value_at(log, card_id, aspect_id, w) == 0
            ==> group_compacted(log, next_id, card_id, aspect_id, w).0.filter(
            about(card_id, aspect_id),
        ).filter(settled_by(w)).len() == 0,
{
    if !is_compact(log, card_id, aspect_id, w) {
        let mine = about(card_id, aspect_id);
        let stay = survives(card_id, aspect_id, w);
        let kept = log.filter(stay);
        let rest = kept.filter(mine).filter(settled_by(w));
        history::filter_members(log, stay);
        history::filter_members(kept, mine);
        history::filter_members(kept.filter(mine), settled_by(w));
        if rest.len() > 0 {
            let r = rest[0];
            assert(settled_by(w)(rest[0]));
            assert(kept.filter(mine).contains(rest[0]));
            let f = kept.filter(mine);
            let k = choose|k: int| 0 <= k < f.len() && f[k] == r;
            assert(mine(f[k]) && kept.contains(f[k]));
            let m = choose|m: int| 0 <= m < kept.len() && kept[m] == r;
            assert(stay(kept[m]));
        }
        let mark = OpLog {
            id: next_id,
            card_id,
            aspect_id,
            time_ms: w,
            op: AspectOp::Assign.spec_code(),
            modifier: value_at(log, card_id, aspect_id, w),
        };
        replay::filter_of_push(kept, mark, mine);
        replay::filter_of_push(kept.filter(mine), mark, settled_by(w));
        replay::code_round_trip(AspectOp::Assign);
    }
}

/// Collapsing one group leaves the operations after the watermark and those of every
/// other group as they are.
proof fn lemma_group_is_confined(
    log: Seq<OpLog>,
    next_id: u64,
    card_id: u32,
    aspect_id: u8,
    w: u64,
    c: u32,
    a: u8,
)
    ensures
        ({
            let g = group_compacted(log, next_id, card_id, aspect_id, w).0;
            &&& g.filter(live_after(w)) == log.filter(live_after(w))
            &&& !(c == card_id && a == aspect_id) ==> g.filter(about(c, a)) == log.filter(
                about(c, a),
            )
        }),
{
    if !is_compact(log, card_id, aspect_id, w) {
        let stay = survives(card_id, aspect_id, w);
        let kept = log.filter(stay);
        let live = live_after(w);
        replay::filters_agree(log, stay, live, live, live);
        lemma_filter_idempotent(log, live);
        let mark = OpLog {
            id: next_id,
            card_id,
            aspect_id,
            time_ms: w,
            op: AspectOp::Assign.spec_code(),
            modifier: value_at(log, card_id, aspect_id, w),
        };
        replay::filter_of_push(kept, mark, live);
        replay::filter_of_push(kept, mark, about(c, a));
        if !(c == card_id && a == aspect_id) {
            lemma_other_ops(log, card_id, aspect_id, w, c, a);
        }
    }
}

proof fn lemma_groups_are_confined(
    log: Seq<OpLog>,
    next_id: u64,
    keys: Seq<u64>,
    w: u64,
    c: u32,
    a: u8,
)
    ensures
        ({
            let g = groups_compacted(log, next_id, keys, w).0;
            &&& g.filter(live_after(w)) == log.filter(live_after(w))
            &&& is_compact(g, c, a, w) || (!keys.contains(group_key(c, a)) && g.filter(about(c, a))
                == log.filter(about(c, a)))
        }),
    decreases keys.len(),
{
    if keys.len() > 0 {
        let init = keys.drop_last();
        lemma_groups_are_confined(log, next_id, init, w, c, a);
        let before = groups_compacted(log, next_id, init, w);
        let kc = (keys.last() / 256) as u32;
        let ka = (keys.last() % 256) as u8;
        lemma_group_is_confined(before.0, before.1, kc, ka, w, c, a);
        collapsed_groups_are_compact(before.0, before.1, kc, ka, w);
        if !(c == kc && a == ka) && keys.contains(group_key(c, a)) {
            let k = choose|k: int| 0 <= k < keys.len() && keys[k] == group_key(c, a);
            assert(init[k] == group_key(c, a));
        }
    }
}

proof fn lemma_groups_are_named(log: Seq<OpLog>, i: int)
    requires
        0 <= i < log.len(),
    ensures
        groups(log).contains(group_key(log[i].card_id, log[i].aspect_id)),
    decreases log.len(),
{
    let k = group_key(log.last().card_id, log.last().aspect_id);
    let before = groups(log.drop_last());
    if i < log.len() - 1 {
        lemma_groups_are_named(log.drop_last(), i);
        let x = group_key(log[i].card_id, log[i].aspect_id);
        let j = choose|j: int| 0 <= j < before.len() && before[j] == x;
        assert(groups(log)[j] == x);
    } else if !before.contains(k) {
        assert(groups(log)[before.len() as int] == k);
    }
}

/// After compaction each aspect of each card has at most one operation up to the
/// watermark, and that one is a reset. The operations after the watermark are
/// untouched.
pub proof fn compaction_is_complete(db: Db, w: u64, card_id: u32, aspect_id: u8)
    ensures
        is_compact(compacted(db, w).op_log, card_id, aspect_id, w),
        compacted(db, w).op_log.filter(live_after(w)) == db.op_log.filter(live_after(w)),
{
    let log = db.op_log;
    let keys = replay::sorted(groups(log));
    replay::sorting_sorts(groups(log));
    lemma_groups_are_confined(log, db.next_op_id, keys, w, card_id, aspect_id);
    let g = compacted(db, w).op_log;
    if !keys.contains(group_key(card_id, aspect_id)) {
        let mine = log.filter(about(card_id, aspect_id));
        history::filter_members(log, about(card_id, aspect_id));
        if mine.len() > 0 {
            assert(log.contains(mine[0]));
            let i = choose|i: int| 0 <= i < log.len() && log[i] == mine[0];
            lemma_groups_are_named(log, i);
            replay::sorting_keeps_members(groups(log), group_key(card_id, aspect_id));
        }
        if !is_compact(g, card_id, aspect_id, w) {
            history::filter_members(mine, settled_by(w));
            assert(mine.contains(mine.filter(settled_by(w))[0]));
        }
    }
}

proof fn lemma_compact_groups_stay(log: Seq<OpLog>, next_id: u64, keys: Seq<u64>, w: u64)
    requires
        forall|c: u32, a: u8| #[trigger] is_compact(log, c, a, w),
    ensures
        groups_compacted(log, next_id, keys, w) == (log, next_id),
    decreases keys.len(),
{
    if keys.len() > 0 {
        lemma_compact_groups_stay(log, next_id, keys.drop_last(), w);
    }
}

/// Compacting twice up to one watermark is compacting once.
pub proof fn compaction_is_idempotent(db: Db, w: u64)
    ensures
        compacted(compacted(db, w), w) == compacted(db, w),
{
    let once = compacted(db, w);
    assert forall|c: u32, a: u8| #[trigger] is_compact(once.op_log, c, a, w) by {
        compaction_is_complete(db, w, c, a);
    }
    lemma_compact_groups_stay(
        once.op_log,
        once.next_op_id,
        replay::sorted(groups(once.op_log)),
        w,
    );
}

} // verus!
