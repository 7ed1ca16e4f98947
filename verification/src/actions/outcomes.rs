//! What actions come to: the stocks, cards and predicates that a player sees.
use vstd::prelude::*;

use crate::actions::completion;
use crate::actions::path;
use crate::actions::tape::Effect;
use crate::actions::tape::StockOp;
use crate::actions::tile_cards;
use crate::actions::verify;
use crate::actions::verify::SyntheticTile;
use crate::cards::cards;
use crate::cards::cards::Card;
use crate::cards::env;
use crate::cards::env::Env;
use crate::cards::flags::BkFlags;
use crate::cards::laws;
use crate::cards::micro;
use crate::cards::micro::Micro;
use crate::cards::outcomes;
use crate::content;
use crate::content::Recipe;
use crate::content::Seg;
use crate::content::StatementValue;
use crate::content::Stmt;
use crate::history;
use crate::packed;
use crate::regions::cards as tiles;
use crate::tables::Db;
use crate::tile_words::Tile;

verus! {

// ---- tile stocks ---------------------------------------------------
/// The first stock in a bookkeeping word.
pub open spec fn first_stock(bk: BkFlags, word: u32) -> u32 {
    (word & bk.tile_stock_0_mask) >> bk.tile_stock_0_shift
}

/// The second stock in a bookkeeping word.
pub open spec fn second_stock(bk: BkFlags, word: u32) -> u32 {
    (word & bk.tile_stock_1_mask) >> bk.tile_stock_1_shift
}

/// The two tile stocks have bits of their own, and room for every stock up to 3.
pub open spec fn stocks_laid_out(bk: BkFlags) -> bool {
    let marks = bk.position_dirty | bk.data_dirty;
    &&& 3 <= bk.tile_stock_0_max <= 255
    &&& 3 <= bk.tile_stock_1_max <= 255
    &&& bk.tile_stock_0_mask & bk.tile_stock_1_mask == 0
    &&& bk.tile_stock_1_mask & bk.tile_stock_0_mask == 0
    &&& bk.tile_stock_0_mask & micro::stack_mask(bk) == 0
    &&& bk.tile_stock_1_mask & micro::stack_mask(bk) == 0
    &&& micro::stack_mask(bk) & bk.tile_stock_0_mask == 0
    &&& micro::stack_mask(bk) & bk.tile_stock_1_mask == 0
    &&& bk.tile_stock_0_mask & marks == 0
    &&& bk.tile_stock_1_mask & marks == 0
}

/// Words that agree on the placement bits agree on each of their fields.
pub proof fn lemma_stack_fields(word: u32, out: u32, mic: u32, s: u32, x: u32)
    by (bit_vector)
    requires
        out & ((mic | s) | x) == word & ((mic | s) | x),
    ensures
        out & mic == word & mic,
        out & s == word & s,
        out & x == word & x,
{
}

/// A stock that is set reads back. The other stock and the placement stay.
proof fn lemma_restocked(e: Env, c: Card, slot: int, value: u8)
    requires
        e.wf(),
        stocks_laid_out(e.bk),
        slot == 0 || slot == 1,
        value <= 3,
    ensures
        ({
            let d = tile_cards::restocked(e, slot, value)(c);
            &&& first_stock(e.bk, d.flags_bk) == if slot == 0 {
                value as u32
            } else {
                first_stock(e.bk, c.flags_bk)
            }
            &&& second_stock(e.bk, d.flags_bk) == if slot == 1 {
                value as u32
            } else {
                second_stock(e.bk, c.flags_bk)
            }
            &&& cards::placement(e, d) == cards::placement(e, c)
            &&& first_stock(e.bk, c.flags_bk) <= 255
            &&& second_stock(e.bk, c.flags_bk) <= 255
        }),
{
    reveal(Env::laid_out);
    let f0 = tiles::stock_field(e.bk, 0);
    let f1 = tiles::stock_field(e.bk, 1);
    let w0 = choose|w: u32| env::well_shaped(f0, w);
    let w1 = choose|w: u32| env::well_shaped(f1, w);
    env::field_read_over_write(c.flags_bk, f0, w0, value as u32);
    env::field_read_over_write(c.flags_bk, f1, w1, value as u32);
    let stack = micro::stack_mask(e.bk);
    let d = tile_cards::restocked(e, slot, value)(c);
    if slot == 0 {
        env::write_is_confined(c.flags_bk, f0, value as u32, f1.mask);
        env::write_is_confined(c.flags_bk, f0, value as u32, stack);
    } else {
        env::write_is_confined(c.flags_bk, f1, value as u32, f0.mask);
        env::write_is_confined(c.flags_bk, f1, value as u32, stack);
    }
    lemma_stack_fields(
        c.flags_bk,
        d.flags_bk,
        e.bk.micro_is_card,
        e.bk.stack_state_mask,
        e.bk.stack_index_mask,
    );
}

/// A tile-card that is found is in force, and stands on the cell.
proof fn lemma_tile_card_in_force(
    e: Env,
    all: Seq<Card>,
    candidates: Seq<Card>,
    location: u64,
    q: u8,
    r: u8,
    t: u64,
)
    ensures
        tile_cards::tile_card_at(e, all, candidates, location, q, r, t) matches Some(c)
            ==> history::prior_at(all, c.card_id, t) == Some(c) && tile_cards::stands_on(
            e,
            c,
            location,
            q,
            r,
        ),
    decreases candidates.len(),
{
    if candidates.len() > 0 {
        lemma_tile_card_in_force(e, all, candidates.skip(1), location, q, r, t);
        history::prior_at_is_greatest(all, candidates[0].card_id, t);
    }
}

/// Promoting the tile on a cell gives a card in force that carries the tile: its
/// definition, and its stocks in their fields. It stands loose on the cell.
pub proof fn promoted_cards_carry_their_tile(
    e: Env,
    db: Db,
    location: u64,
    q: u8,
    r: u8,
    t: u64,
    view: Tile,
)
    requires
        e.wf(),
        stocks_laid_out(e.bk),
        e.loose_kinds@[packed::surface(location) as int] <= e.bk.stack_state_max,
        t < packed::TIME_RADIX,
        history::distinct_versions(db.cards),
        history::prior_at(db.cards, cards::next_id(db), t) is None,
        tile_cards::tile_view(e, db, location, q, r, t) == Some(view),
        view.1 <= 3,
        view.2 <= 3,
        cards::definition_flags(e, view.0) & e.state.dead == 0,
    ensures
        ({
            let p = tile_cards::promotion(e, db, location, q, r, t);
            &&& history::distinct_versions(p.0.cards)
            &&& p.0.zones == db.zones
            &&& p.1 matches Ok(c) && history::prior_at(p.0.cards, c.card_id, t) == Some(c)
                && c.macro_zone == location && c.packed_definition == view.0 && first_stock(
                e.bk,
                c.flags_bk,
            ) == view.1 && second_stock(e.bk, c.flags_bk) == view.2 && (cards::placement(
                e,
                c,
            ) matches Micro::Loose { local_q, local_r, .. } && local_q == q && local_r == r)
        }),
{
    lemma_tile_card_in_force(e, db.cards, db.cards, location, q, r, t);
    reveal(Env::laid_out);
    let f0 = tiles::stock_field(e.bk, 0);
    let f1 = tiles::stock_field(e.bk, 1);
    let w0 = choose|w: u32| env::well_shaped(f0, w);
    let w1 = choose|w: u32| env::well_shaped(f1, w);
    match tile_cards::tile_card(e, db, location, q, r, t) {
        Some(c) => {
            env::field_read_over_write(c.flags_bk, f0, w0, 0);
            env::field_read_over_write(c.flags_bk, f1, w1, 0);
        },
        None => {
            let z = crate::regions::zones::latest_on(db.zones, location)->0;
            let taken = cards::id_taken(db);
            let c = tile_cards::promoted(e, db, location, q, r, z.owner_id, view);
            let kind = e.loose_kinds@[packed::surface(location) as int];
            let m = Micro::Loose { local_q: q, local_r: r, x: 0, y: 0, kind };
            let a = env::with_field(0, f0, view.1 as u32);
            let b = env::with_field(a, f1, view.2 as u32);
            env::field_read_over_write(0, f0, w0, view.1 as u32);
            env::field_read_over_write(a, f1, w1, view.2 as u32);
            env::write_is_confined(a, f1, view.2 as u32, f0.mask);
            outcomes::created_cards_are_as_given(
                e,
                cards::next_id(db),
                location,
                m,
                z.owner_id,
                view.0,
                0,
                b,
                f0.mask,
            );
            outcomes::created_cards_are_as_given(
                e,
                cards::next_id(db),
                location,
                m,
                z.owner_id,
                view.0,
                0,
                b,
                f1.mask,
            );
            outcomes::rows_are_stored_as_given(e, taken, c, t, f0.mask);
            outcomes::rows_are_stored_as_given(e, taken, c, t, f1.mask);
            laws::write_reads_back(e, taken, c, t);
            laws::writes_keep_versions_distinct(e, taken, c, t, 0);
            laws::card_writes_stay_with_cards(e, taken, c, t, cards::cascade_depth(taken));
            crate::cards::utilities::lemma_no_flags(cards::definition_flags(e, view.0));
            let row = cards::stamped(e, taken, c, t);
            assert(c.card_id == cards::next_id(db));
            assert(c.flags_state & e.state.dead == 0);
            assert(cards::after_write(e, taken, c, t) == cards::row_written(e, taken, c, t));
            assert(cards::placement(e, row) == m);
            assert(tile_cards::promotion(e, db, location, q, r, t).1 == Ok::<
                Card,
                tiles::TileError,
            >(row));
        },
    }
}

/// A stock of 0 to 3 after a change: it grows or shrinks by the delta, or becomes it,
/// and stops at the ends of the range.
pub open spec fn restocked_to(stock: int, op: StockOp, delta: int) -> int {
    let wanted = match op {
        StockOp::Add => stock + delta,
        StockOp::Sub => stock - delta,
        StockOp::Assign => delta,
    };
    if wanted < 0 {
        0
    } else if wanted > 3 {
        3
    } else {
        wanted
    }
}

/// A stock effect changes one stock of the tile it names, by the delta, and nothing
/// else of it: at its time the tile-card has the stock that the tile had, more or less
/// the delta, within 0 to 3.
pub proof fn stock_effects_add_up(
    e: Env,
    db: Db,
    zone_id: u32,
    row: u8,
    col: u8,
    slot: usize,
    op: StockOp,
    delta: u8,
    t: u64,
    location: u64,
    view: Tile,
)
    requires
        e.wf(),
        stocks_laid_out(e.bk),
        e.loose_kinds@[packed::surface(location) as int] <= e.bk.stack_state_max,
        t < packed::TIME_RADIX,
        history::distinct_versions(db.cards),
        history::prior_at(db.cards, cards::next_id(db), t) is None,
        slot < 2,
        history::latest(db.zones, zone_id) matches Some(z) && z.macro_zone == location,
        tile_cards::tile_view(e, db, location, col, row, t) == Some(view),
        view.1 <= 3,
        view.2 <= 3,
        cards::definition_flags(e, view.0) & e.state.dead == 0,
    ensures
        ({
            let done = completion::effect_done(
                e,
                db,
                Effect::ModifyTileStock { zone_id, row, col, slot, op, delta },
                t,
            );
            let tile = tile_cards::promotion(e, db, location, col, row, t).1->Ok_0;
            &&& done.1 is Ok
            &&& history::prior_at(done.0.cards, tile.card_id, t) matches Some(c) && first_stock(
                e.bk,
                c.flags_bk,
            ) == (if slot == 0 {
                restocked_to(view.1 as int, op, delta as int)
            } else {
                view.1 as int
            }) && second_stock(e.bk, c.flags_bk) == (if slot == 1 {
                restocked_to(view.2 as int, op, delta as int)
            } else {
                view.2 as int
            }) && c.packed_definition == view.0 && c.macro_zone == location && (cards::placement(
                e,
                c,
            ) matches Micro::Loose { local_q, local_r, .. } && local_q == col && local_r == row)
        }),
{
    reveal(completion::effect_done);
    promoted_cards_carry_their_tile(e, db, location, col, row, t, view);
    let p = tile_cards::promotion(e, db, location, col, row, t);
    let c = p.1->Ok_0;
    let s = tiles::stock_value(e.bk, c.flags_bk, slot as int);
    let next = completion::stock_after(s, op, delta);
    lemma_restocked(e, c, slot as int, next);
    let n = tile_cards::restocked(e, slot as int, next)(c);
    history::prior_at_is_greatest(p.0.cards, c.card_id, t);
    outcomes::rows_are_stored_as_given(e, p.0, n, t, e.bk.tile_stock_0_mask);
    outcomes::rows_are_stored_as_given(e, p.0, n, t, e.bk.tile_stock_1_mask);
    laws::write_reads_back(e, p.0, n, t);
    assert(cards::after_write(e, p.0, n, t) == cards::row_written(e, p.0, n, t));
}

/// What is added to a stock and then taken away leaves it as it was, unless the stock
/// ran over; a stock grows where something is added and there is room.
pub proof fn stocks_count(stock: u8, delta: u8)
    requires
        stock <= 3,
    ensures
        stock + delta <= 3 ==> completion::stock_after(stock, StockOp::Add, delta) == stock + delta,
        stock + delta <= 3 ==> completion::stock_after(
            completion::stock_after(stock, StockOp::Add, delta),
            StockOp::Sub,
            delta,
        ) == stock,
        0 < delta && stock < 3 ==> completion::stock_after(stock, StockOp::Add, delta) > stock,
        delta <= stock ==> completion::stock_after(stock, StockOp::Sub, delta) == stock - delta,
        delta <= stock ==> completion::stock_after(
            completion::stock_after(stock, StockOp::Sub, delta),
            StockOp::Add,
            delta,
        ) == stock,
        delta <= 3 ==> completion::stock_after(stock, StockOp::Assign, delta) == delta,
        completion::stock_after(stock, StockOp::Add, delta) <= 3,
        completion::stock_after(stock, StockOp::Assign, delta) <= 3,
        delta >= stock ==> completion::stock_after(stock, StockOp::Sub, delta) == 0,
        stock + delta >= 3 ==> completion::stock_after(stock, StockOp::Add, delta) == 3,
{
}

// ---- predicates ----------------------------------------------------
/// The aspect `wanted` is kept in the stock slot `k` of a definition, and in no other.
pub open spec fn kept_in_slot(c: content::Catalog, d: content::CardDefinition, wanted: u16, k: int) -> bool {
    &&& 0 <= k < d.stock@.len()
    &&& forall|i: int|
        0 <= i < d.stock@.len() ==> (content::descends(
            c.aspects@,
            (#[trigger] d.stock@[i]).aspect_id,
            wanted,
        ) <==> i == k)
}

proof fn lemma_no_slot(
    aspects: Seq<content::AspectDefinition>,
    slots: Seq<content::StockSlot>,
    stocks: (u8, u8),
    wanted: u16,
)
    requires
        forall|i: int|
            0 <= i < slots.len() ==> !content::descends(
                aspects,
                (#[trigger] slots[i]).aspect_id,
                wanted,
            ),
    ensures
        content::stock_sum(aspects, slots, stocks, wanted) == (0int, 0int),
    decreases slots.len(),
{
    if slots.len() > 0 {
        let init = slots.drop_last();
        assert forall|i: int| 0 <= i < init.len() implies !content::descends(
            aspects,
            (#[trigger] init[i]).aspect_id,
            wanted,
        ) by {
            assert(init[i] == slots[i]);
        }
        assert(slots[slots.len() - 1] == slots.last());
        lemma_no_slot(aspects, init, stocks, wanted);
    }
}

proof fn lemma_one_slot(
    aspects: Seq<content::AspectDefinition>,
    slots: Seq<content::StockSlot>,
    stocks: (u8, u8),
    wanted: u16,
    k: int,
)
    requires
        0 <= k < slots.len(),
        forall|i: int|
            0 <= i < slots.len() ==> (content::descends(
                aspects,
                (#[trigger] slots[i]).aspect_id,
                wanted,
            ) <==> i == k),
    ensures
        content::stock_sum(aspects, slots, stocks, wanted) == (
            1int,
            if k == 0 {
                stocks.0 as int
            } else {
                stocks.1 as int
            },
        ),
    decreases slots.len(),
{
    let init = slots.drop_last();
    assert forall|i: int| 0 <= i < init.len() implies (content::descends(
        aspects,
        (#[trigger] init[i]).aspect_id,
        wanted,
    ) <==> i == k) by {
        assert(init[i] == slots[i]);
    }
    assert(slots[slots.len() - 1] == slots.last());
    if k == slots.len() - 1 {
        lemma_no_slot(aspects, init, stocks, wanted);
    } else {
        lemma_one_slot(aspects, init, stocks, wanted, k);
    }
}

/// The statement `<slot>.aspect.<name>.min: <least>`.
pub open spec fn asks_for_at_least(
    stmt: Stmt,
    iterator_id: u32,
    offset: u32,
    name: Seq<char>,
    least: i32,
) -> bool {
    let s = stmt.segments@;
    &&& s.len() == 4
    &&& s[0] == (Seg::Slot { iterator_id, offset })
    &&& s[1] matches Seg::Word(w) && w@ == "aspect"@
    &&& s[2] matches Seg::Word(w) && w@ == name
    &&& s[3] matches Seg::Word(w) && w@ == "min"@
    &&& stmt.value == Some(StatementValue::Int(least as i64))
}

/// The card `id` is bound at a slot of one of the recipe's iterators.
pub open spec fn binds(r: Recipe, bindings: Seq<Vec<u32>>, iterator_id: u32, offset: u32, id: u32) -> bool {
    &&& iterator_id < r.iterators@.len()
    &&& iterator_id < bindings.len()
    &&& offset < bindings[iterator_id as int]@.len()
    &&& bindings[iterator_id as int]@[offset as int] == id
}

/// A minimum asked of a bound tile-card is compared with the stock that keeps the
/// aspect: the first stock for an aspect kept in the first slot, the second for one
/// kept in the second.
pub proof fn minimums_compare_with_their_stock(
    e: Env,
    db: Db,
    r: Recipe,
    stmt: Stmt,
    root: u32,
    bindings: Seq<Vec<u32>>,
    tile: Option<SyntheticTile>,
    t: u64,
    iterator_id: u32,
    offset: u32,
    name: Seq<char>,
    least: i32,
    c: Card,
    d: content::CardDefinition,
    wanted: u16,
    k: int,
)
    requires
        e.wf(),
        stocks_laid_out(e.bk),
        asks_for_at_least(stmt, iterator_id, offset, name, least),
        c.card_id != 0,
        binds(r, bindings, iterator_id, offset, c.card_id),
        history::prior_at(db.cards, c.card_id, t) == Some(c),
        c.packed_definition / 4096 == 7,
        content::definition(e.catalog.definitions@, c.packed_definition) == Some(d),
        content::aspect_by_name(e.catalog.aspects@, name) == Some(wanted),
        kept_in_slot(e.catalog, d, wanted, k),
        k == 0 || k == 1,
    ensures
        verify::predicate(e, db, r, stmt, root, bindings, tile, t) is Ok <==> least <= if k == 0 {
            first_stock(e.bk, c.flags_bk)
        } else {
            second_stock(e.bk, c.flags_bk)
        },
{
    reveal_strlit("min");
    reveal_strlit("def_id");
    reveal_strlit("root");
    let s = stmt.segments@;
    assert("min"@.len() != "def_id"@.len());
    assert(s.take(1)[0] == s[0]);
    assert(path::word_is(s[1], "aspect"@));
    lemma_restocked(e, c, 0, 0);
    let stocks = (
        tiles::stock_value(e.bk, c.flags_bk, 0),
        tiles::stock_value(e.bk, c.flags_bk, 1),
    );
    lemma_one_slot(e.catalog.aspects@, d.stock@, stocks, wanted, k);
    assert((least as i64) as i32 == least);
    assert(verify::walked(e, db, r, s.take(1), 1, bindings, c.card_id, t) == Ok::<
        u32,
        verify::VerifyError,
    >(c.card_id));
    assert(verify::subject(e, db, r, s.take(1), root, bindings, tile, t) == Ok::<
        verify::Subject,
        verify::VerifyError,
    >(verify::subject_of(e, c)));
}

/// A tile-card answers every statement about its slot as the tile itself does that it
/// carries.
pub proof fn tile_cards_answer_as_their_tile(
    e: Env,
    db: Db,
    r: Recipe,
    stmt: Stmt,
    root: u32,
    bindings: Seq<Vec<u32>>,
    unbound: Seq<Vec<u32>>,
    t: u64,
    iterator_id: u32,
    c: Card,
    tile: SyntheticTile,
)
    requires
        e.wf(),
        stocks_laid_out(e.bk),
        c.card_id != 0,
        binds(r, bindings, iterator_id, 0, c.card_id),
        binds(r, unbound, iterator_id, 0, 0),
        r.iterators@[iterator_id as int].parent@.len() == 0,
        r.iterators@[iterator_id as int].branch == 0,
        stmt.segments@.len() > 0,
        stmt.segments@[0] == (Seg::Slot { iterator_id, offset: 0 }),
        forall|i: int| 1 <= i < stmt.segments@.len() ==> #[trigger] stmt.segments@[i] is Word,
        stmt.segments@.len() <= 2 || stmt.segments@.len() == 4,
        history::prior_at(db.cards, c.card_id, t) == Some(c),
        c.packed_definition / 4096 == 7,
        tile.0 == c.packed_definition,
        (tile.1).0 == first_stock(e.bk, c.flags_bk),
        (tile.1).1 == second_stock(e.bk, c.flags_bk),
        stmt.segments@.len() == 2 ==> path::word_is(stmt.segments@[1], "def_id"@),
        stmt.segments@.len() == 4 ==> path::word_is(stmt.segments@[3], "min"@),
    ensures
        verify::predicate(e, db, r, stmt, root, bindings, Some(tile), t) == verify::predicate(
            e,
            db,
            r,
            stmt,
            root,
            unbound,
            Some(tile),
            t,
        ),
{
    reveal_strlit("min");
    reveal_strlit("def_id");
    reveal_strlit("root");
    assert("min"@.len() != "def_id"@.len());
    let s = stmt.segments@;
    assert(s.take(1)[0] == s[0]);
    lemma_restocked(e, c, 0, 0);
    assert(verify::walked(e, db, r, s.take(1), 1, bindings, c.card_id, t) == Ok::<
        u32,
        verify::VerifyError,
    >(c.card_id));
    assert(verify::subject(e, db, r, s.take(1), root, bindings, Some(tile), t) == Ok::<
        verify::Subject,
        verify::VerifyError,
    >((tile.0, Some(tile.1))));
    assert(verify::subject(e, db, r, s.take(1), root, unbound, Some(tile), t) == Ok::<
        verify::Subject,
        verify::VerifyError,
    >((tile.0, Some(tile.1))));
}

} // verus!
