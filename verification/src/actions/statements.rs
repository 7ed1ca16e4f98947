//! What the statements of a recipe say and do.
use vstd::prelude::*;

use crate::actions::path;
use crate::actions::plan;
use crate::actions::tape;
use crate::actions::tape::Effect;
use crate::actions::tape::HexLocation;
use crate::actions::tape::StockOp;
use crate::actions::tape::Walk;
use crate::actions::verify;
use crate::actions::verify::SyntheticTile;
use crate::cards::cards;
use crate::cards::cards::Card;
use crate::cards::env::Env;
use crate::cards::env::HoldKind;
use crate::cards::flags;
use crate::content;
use crate::content::AspectId;
use crate::content::CardDefinition;
use crate::content::Recipe;
use crate::content::Seg;
use crate::content::Segment;
use crate::content::SlotIterator;
use crate::content::StatementValue;
use crate::content::Stmt;
use crate::history;
use crate::packed;
use crate::regions::zones;
use crate::regions::zones::Zone;
use crate::tables::Db;

verus! {

/// The words of statements differ from each other.
proof fn lemma_words()
    ensures
        "set"@ != "sub"@,
        "set"@ != "add"@,
        "sub"@ != "add"@,
        "sys"@ != "when"@,
        "var"@ != "when"@,
        "var"@ != "sys"@,
        "root"@ != "when"@,
        "root"@ != "sys"@,
        "root"@ != "var"@,
        "set"@ != "destroy"@,
        "sub"@ != "destroy"@,
        "add"@ != "destroy"@,
        "set"@ != "create"@,
        "sub"@ != "create"@,
        "add"@ != "create"@,
        "set"@ != "unlock"@,
        "sub"@ != "unlock"@,
        "add"@ != "unlock"@,
        "create"@ != "destroy"@,
        "unlock"@ != "destroy"@,
        "unlock"@ != "create"@,
        "gt"@ != "ge"@,
        "gt"@ != "lt"@,
        "gt"@ != "le"@,
        "gt"@ != "eq"@,
        "gt"@ != "ne"@,
        "ge"@ != "lt"@,
        "ge"@ != "le"@,
        "ge"@ != "eq"@,
        "ge"@ != "ne"@,
        "lt"@ != "le"@,
        "lt"@ != "eq"@,
        "lt"@ != "ne"@,
        "le"@ != "eq"@,
        "le"@ != "ne"@,
        "eq"@ != "ne"@,
        "var"@ != "gt"@,
        "var"@ != "ge"@,
        "var"@ != "lt"@,
        "var"@ != "le"@,
        "var"@ != "eq"@,
        "var"@ != "ne"@,
        "none"@ != "ltr"@,
        "none"@ != "rtl"@,
        "ltr"@ != "rtl"@,
        "owner"@ != "parent"@,
        "def_id"@ != "min"@,
{
    reveal_strlit("set");
    reveal_strlit("sub");
    reveal_strlit("add");
    reveal_strlit("sys");
    reveal_strlit("var");
    reveal_strlit("when");
    reveal_strlit("root");
    reveal_strlit("destroy");
    reveal_strlit("create");
    reveal_strlit("unlock");
    reveal_strlit("gt");
    reveal_strlit("ge");
    reveal_strlit("lt");
    reveal_strlit("le");
    reveal_strlit("eq");
    reveal_strlit("ne");
    reveal_strlit("none");
    reveal_strlit("ltr");
    reveal_strlit("rtl");
    reveal_strlit("owner");
    reveal_strlit("parent");
    reveal_strlit("def_id");
    reveal_strlit("min");
    assert("set"@.len() == 3 && "sub"@.len() == 3 && "add"@.len() == 3 && "destroy"@.len() == 7);
    assert("owner"@.len() == 5 && "parent"@.len() == 6 && "def_id"@.len() == 6 && "min"@.len() == 3);
    assert("set"@[1] == 'e' && "sub"@[1] == 'u' && "add"@[1] == 'd');
    assert("sys"@[1] == 'y' && "var"@[1] == 'a');
    assert("root"@[0] == 'r' && "when"@[0] == 'w');
    assert("create"@[0] == 'c' && "unlock"@[0] == 'u');
    assert("gt"@[0] == 'g' && "ge"@[0] == 'g' && "lt"@[0] == 'l' && "le"@[0] == 'l' && "eq"@[0]
        == 'e' && "ne"@[0] == 'n');
    assert("gt"@[1] == 't' && "ge"@[1] == 'e' && "lt"@[1] == 't' && "le"@[1] == 'e');
    assert("ltr"@[0] == 'l' && "rtl"@[0] == 'r');
}

// ---- variables, time and guards ------------------------------------
/// A statement `var.n.<op>: x` with a literal changes variable `n` and nothing else of
/// the walk: `set` gives it the literal, `add` and `sub` add it or take it away.
pub proof fn variables_are_set_and_counted(
    e: Env,
    db: Db,
    w: Walk,
    r: Recipe,
    segs: Seq<Seg>,
    n: u32,
    x: i32,
    bindings: Seq<Vec<u32>>,
    root: u32,
    hex: Option<HexLocation>,
)
    requires
        segs.len() == 3,
        path::word_is(segs[0], "var"@),
        segs[1] == Seg::Index(n),
        n < 8,
        w.vars.len() == 8,
        path::word_is(segs[2], "set"@) || path::word_is(segs[2], "add"@) || path::word_is(
            segs[2],
            "sub"@,
        ),
    ensures
        ({
            let was = w.vars[n as int];
            let want = if path::word_is(segs[2], "set"@) {
                x as int
            } else if path::word_is(segs[2], "add"@) {
                was + x
            } else {
                was - x
            };
            tape::stmt_done(
                e,
                db,
                w,
                r,
                segs,
                Some(StatementValue::Int(x as i64)),
                bindings,
                root,
                hex,
            ) matches Ok(out) && out.duration == w.duration && out.pending == w.pending && out.styles
                == w.styles && out.vars.len() == 8 && (forall|k: int|
                0 <= k < 8 && k != n ==> #[trigger] out.vars[k] == w.vars[k]) && (i32::MIN <= want
                <= i32::MAX ==> out.vars[n as int] == want) && (want > i32::MAX
                ==> out.vars[n as int] == i32::MAX) && (want < i32::MIN ==> out.vars[n as int]
                == i32::MIN)
        }),
{
    lemma_words();
    assert((x as i64) as i32 == x);
}

/// A statement `sys.duration.set: n` makes the action last `n` seconds, and does
/// nothing else.
pub proof fn durations_are_in_seconds(
    e: Env,
    db: Db,
    w: Walk,
    r: Recipe,
    segs: Seq<Seg>,
    n: u32,
    bindings: Seq<Vec<u32>>,
    root: u32,
    hex: Option<HexLocation>,
)
    requires
        segs.len() == 3,
        path::word_is(segs[0], "sys"@),
        path::word_is(segs[1], "duration"@),
        path::word_is(segs[2], "set"@),
    ensures
        tape::stmt_done(
            e,
            db,
            w,
            r,
            segs,
            Some(StatementValue::Int(n as i64)),
            bindings,
            root,
            hex,
        ) matches Ok(out) && out.duration == n && out.vars == w.vars && out.pending == w.pending
            && out.styles == w.styles && plan::length_ms(
            plan::Plan {
                styles: out.styles,
                duration: out.duration,
                pending: out.pending,
                holds: Seq::empty(),
            },
        ) == 1000 * n,
{
    lemma_words();
    assert((n as i64) as u32 == n);
}

/// A guarded statement `when.var.n.<comparison>.b.<inner>` does what the inner
/// statement does where the variable compares to the number as the word says, and
/// nothing at all where it does not.
pub proof fn guards_decide(
    e: Env,
    db: Db,
    w: Walk,
    r: Recipe,
    segs: Seq<Seg>,
    n: u32,
    b: u32,
    value: Option<StatementValue>,
    bindings: Seq<Vec<u32>>,
    root: u32,
    hex: Option<HexLocation>,
)
    requires
        segs.len() > 5,
        path::word_is(segs[0], "when"@),
        path::word_is(segs[1], "var"@),
        segs[2] == Seg::Index(n),
        n < 8,
        tape::is_comparison(segs[3]),
        segs[4] == Seg::Index(b),
        b <= i32::MAX,
    ensures
        ({
            let v = w.vars[n as int] as int;
            let holds = if path::word_is(segs[3], "gt"@) {
                v > b
            } else if path::word_is(segs[3], "ge"@) {
                v >= b
            } else if path::word_is(segs[3], "lt"@) {
                v < b
            } else if path::word_is(segs[3], "le"@) {
                v <= b
            } else if path::word_is(segs[3], "eq"@) {
                v == b
            } else {
                v != b
            };
            tape::stmt_done(e, db, w, r, segs, value, bindings, root, hex) == if holds {
                tape::stmt_done(e, db, w, r, segs.skip(5), value, bindings, root, hex)
            } else {
                Ok(w)
            }
        }),
{
    lemma_words();
    reveal_with_fuel(tape::comparison_at, 4);
    assert(b as i32 == b);
}

/// The styles have the names `none`, `ltr` and `rtl`, numbered from 0; a number names
/// the style of its low three bits.
pub proof fn styles_have_their_names(text: String, p: Option<Vec<Segment>>, n: i64)
    ensures
        ({
            let named = tape::style_named(Some(StatementValue::Str { text, path: p }));
            &&& text@ == "none"@ ==> (named matches Ok(s) && s == 0)
            &&& text@ == "ltr"@ ==> (named matches Ok(s) && s == 1)
            &&& text@ == "rtl"@ ==> (named matches Ok(s) && s == 2)
            &&& text@ != "none"@ && text@ != "ltr"@ && text@ != "rtl"@ ==> named is Err
        }),
        tape::style_named(Some(StatementValue::Int(n))) matches Ok(s) && s < 8 && (n - s) % 8 == 0,
{
    lemma_words();
}

// ---- stock statements ----------------------------------------------
/// The definition keeps `wanted`, or an aspect that counts as it, in stock `k`, and in
/// no stock before that.
pub open spec fn keeps_first(e: Env, d: CardDefinition, wanted: AspectId, k: int) -> bool {
    &&& 0 <= k < d.stock@.len()
    &&& content::descends(e.catalog.aspects@, d.stock@[k].aspect_id, wanted)
    &&& forall|j: int|
        0 <= j < k ==> !content::descends(
            e.catalog.aspects@,
            (#[trigger] d.stock@[j]).aspect_id,
            wanted,
        )
}

proof fn lemma_stock_slot(e: Env, stock: Seq<content::StockSlot>, wanted: AspectId, k: int)
    requires
        0 <= k < stock.len(),
        content::descends(e.catalog.aspects@, stock[k].aspect_id, wanted),
        forall|j: int|
            0 <= j < k ==> !content::descends(
                e.catalog.aspects@,
                (#[trigger] stock[j]).aspect_id,
                wanted,
            ),
    ensures
        tape::stock_slot(e.catalog.aspects@, stock, wanted) == Some(k),
    decreases stock.len(),
{
    let init = stock.drop_last();
    if k < init.len() {
        assert(init[k] == stock[k]);
        assert forall|j: int| 0 <= j < k implies !content::descends(
            e.catalog.aspects@,
            (#[trigger] init[j]).aspect_id,
            wanted,
        ) by {
            assert(init[j] == stock[j]);
        }
        lemma_stock_slot(e, init, wanted, k);
    } else {
        lemma_no_stock_slot(e, init, wanted);
        assert(stock.last() == stock[k]);
    }
}

proof fn lemma_no_stock_slot(e: Env, stock: Seq<content::StockSlot>, wanted: AspectId)
    requires
        forall|j: int|
            0 <= j < stock.len() ==> !content::descends(
                e.catalog.aspects@,
                (#[trigger] stock[j]).aspect_id,
                wanted,
            ),
    ensures
        tape::stock_slot(e.catalog.aspects@, stock, wanted) is None,
    decreases stock.len(),
{
    if stock.len() > 0 {
        let init = stock.drop_last();
        assert forall|j: int| 0 <= j < init.len() implies !content::descends(
            e.catalog.aspects@,
            (#[trigger] init[j]).aspect_id,
            wanted,
        ) by {
            assert(init[j] == stock[j]);
        }
        lemma_no_stock_slot(e, init, wanted);
        assert(stock[stock.len() - 1] == stock.last());
    }
}

/// A statement `<tile slot>.aspect.<name>.<op>: amount` adds one effect: it changes, on
/// the tile of the proposal, the stock that keeps the aspect, by the amount and in the
/// way that the word says.
pub proof fn stock_statements_change_the_stock_that_keeps_the_aspect(
    e: Env,
    db: Db,
    w: Walk,
    r: Recipe,
    segs: Seq<Seg>,
    amount: u8,
    bindings: Seq<Vec<u32>>,
    root: u32,
    h: HexLocation,
    iterator: u32,
    name: String,
    wanted: AspectId,
    z: Zone,
    d: CardDefinition,
    k: int,
)
    requires
        segs.len() == 4,
        segs[0] == (Seg::Slot { iterator_id: iterator, offset: 0 }),
        iterator < r.iterators@.len(),
        r.iterators@[iterator as int].parent@.len() == 0,
        r.iterators@[iterator as int].branch == 0,
        path::word_is(segs[1], "aspect"@),
        segs[2] == Seg::Word(name),
        name@ != "faction"@,
        path::word_is(segs[3], "add"@) || path::word_is(segs[3], "sub"@) || path::word_is(
            segs[3],
            "set"@,
        ),
        name@ != "style"@,
        content::aspect_by_name(e.catalog.aspects@, name@) == Some(wanted),
        history::latest(db.zones, h.zone_id) == Some(z),
        h.row < 8,
        h.col < 8,
        content::definition(
            e.catalog.definitions@,
            packed::definition_word(7, zones::tile_of(z, h.row as int, h.col as int).0),
        ) == Some(d),
        keeps_first(e, d, wanted, k),
    ensures
        tape::stmt_done(
            e,
            db,
            w,
            r,
            segs,
            Some(StatementValue::Int(amount as i64)),
            bindings,
            root,
            Some(h),
        ) matches Ok(out) && out.vars == w.vars && out.duration == w.duration && out.styles
            == w.styles && out.pending.len() == w.pending.len() + 1 && (out.pending.last() matches Effect::ModifyTileStock {
            zone_id,
            row,
            col,
            slot,
            op,
            delta,
        } && zone_id == h.zone_id && row == h.row && col == h.col && slot == k && delta == amount
            && (path::word_is(segs[3], "add"@) ==> op == StockOp::Add) && (path::word_is(
            segs[3],
            "sub"@,
        ) ==> op == StockOp::Sub) && (path::word_is(segs[3], "set"@) ==> op == StockOp::Assign)),
{
    lemma_words();
    lemma_stock_slot(e, d.stock@, wanted, k);
    let p = segs.take(3);
    assert(p[0] == segs[0] && p[1] == segs[1] && p[2] == segs[2]);
    let target = p.take(1);
    assert(target[0] == segs[0]);
    assert(k < d.stock.len());
    assert(k as usize == k);
    assert(!tape::names_faction(p));
}

// ---- paths ---------------------------------------------------------
/// A path that goes on to the owner names the owner of the card it named before.
pub proof fn paths_go_on_to_the_owner(
    e: Env,
    db: Db,
    p: Seq<Seg>,
    bindings: Seq<Vec<u32>>,
    root: u32,
    owner: Seg,
    id: u32,
    c: Card,
)
    requires
        p.len() > 0,
        path::word_is(owner, "owner"@),
        path::target(e, db, p, bindings, root) matches Ok(i) && i == id,
        cards::current(e, db, id) == Some(c),
        c.owner_id != 0,
    ensures
        path::target(e, db, p.push(owner), bindings, root) matches Ok(o) && o == c.owner_id,
{
    lemma_same_walk(e, db, p, bindings, root, owner, p.len() as int);
}

/// A path that goes on to the parent names the root of the stack that the card it named
/// before is in.
pub proof fn paths_go_on_to_the_parent(
    e: Env,
    db: Db,
    p: Seq<Seg>,
    bindings: Seq<Vec<u32>>,
    root: u32,
    parent: Seg,
    id: u32,
    c: Card,
)
    requires
        p.len() > 0,
        path::word_is(parent, "parent"@),
        path::target(e, db, p, bindings, root) matches Ok(i) && i == id,
        cards::current(e, db, id) == Some(c),
        c.micro_location != 0,
    ensures
        path::target(e, db, p.push(parent), bindings, root) matches Ok(o) && o == c.micro_location,
{
    lemma_words();
    lemma_same_walk(e, db, p, bindings, root, parent, p.len() as int);
}

proof fn lemma_same_walk(
    e: Env,
    db: Db,
    p: Seq<Seg>,
    bindings: Seq<Vec<u32>>,
    root: u32,
    s: Seg,
    n: int,
)
    requires
        p.len() > 0,
        n <= p.len(),
    ensures
        path::walked(e, db, p.push(s), bindings, root, n) == path::walked(
            e,
            db,
            p,
            bindings,
            root,
            n,
        ),
    decreases n,
{
    assert(p.push(s)[0] == p[0]);
    if n > 1 {
        lemma_same_walk(e, db, p, bindings, root, s, n - 1);
        assert(p.push(s)[n - 1] == p[n - 1]);
    }
}

/// A path of one segment names the root, or the card bound at the slot.
pub proof fn paths_start_at_their_anchor(
    e: Env,
    db: Db,
    s: Seg,
    bindings: Seq<Vec<u32>>,
    root: u32,
    iterator: u32,
    offset: u32,
)
    ensures
        path::word_is(s, "root"@) && root != 0 ==> path::target(e, db, seq![s], bindings, root)
            == Ok::<u32, path::PathError>(root),
        s == (Seg::Slot { iterator_id: iterator, offset }) && iterator < bindings.len() && offset
            < bindings[iterator as int]@.len() && bindings[iterator as int]@[offset as int] != 0
            ==> path::target(e, db, seq![s], bindings, root) == Ok::<u32, path::PathError>(
            bindings[iterator as int]@[offset as int],
        ),
{
}

/// A statement `<path>.destroy` adds one effect, which destroys the card at the path.
pub proof fn destroy_statements_name_the_card_at_their_path(
    e: Env,
    db: Db,
    w: Walk,
    r: Recipe,
    p: Seq<Seg>,
    op: Seg,
    value: Option<StatementValue>,
    bindings: Seq<Vec<u32>>,
    root: u32,
    hex: Option<HexLocation>,
    id: u32,
)
    requires
        p.len() > 0,
        p[0] is Slot || path::word_is(p[0], "root"@),
        path::word_is(op, "destroy"@),
        path::target(e, db, p, bindings, root) == Ok::<u32, path::PathError>(id),
    ensures
        tape::stmt_done(e, db, w, r, p.push(op), value, bindings, root, hex) matches Ok(out)
            && out.vars == w.vars && out.duration == w.duration && out.styles == w.styles
            && out.pending.len() == w.pending.len() + 1 && (out.pending.last() matches Effect::Destroy {
            card_id,
        } && card_id == id),
{
    lemma_words();
    assert(p.push(op).take(p.len() as int) =~= p);
}

// ---- predicates ----------------------------------------------------
/// The inputs of a recipe hold where every one of its statements does; where they do
/// not, the first that fails is named.
pub proof fn inputs_hold_where_each_does(
    e: Env,
    db: Db,
    r: Recipe,
    root: u32,
    bindings: Seq<Vec<u32>>,
    tile: Option<SyntheticTile>,
    t: u64,
    n: int,
    i: int,
)
    requires
        0 <= i < n,
        n <= r.input@.len() <= usize::MAX,
    ensures
        match verify::input_error(e, db, r, root, bindings, tile, t, n) {
            None => verify::predicate(e, db, r, r.input@[i], root, bindings, tile, t) is Ok,
            Some(err) => err.index < n && verify::predicate(
                e,
                db,
                r,
                r.input@[err.index as int],
                root,
                bindings,
                tile,
                t,
            ) == Err::<(), verify::VerifyError>(err.error) && (i < err.index ==> verify::predicate(
                e,
                db,
                r,
                r.input@[i],
                root,
                bindings,
                tile,
                t,
            ) is Ok),
        },
    decreases n,
{
    if n > 1 {
        if i < n - 1 {
            inputs_hold_where_each_does(e, db, r, root, bindings, tile, t, n - 1, i);
        } else {
            inputs_hold_where_each_does(e, db, r, root, bindings, tile, t, n - 1, 0);
        }
    } else {
        assert(verify::input_error(e, db, r, root, bindings, tile, t, 0) is None);
    }
}

/// A statement `<slot>.def_id: key` holds of a bound card exactly where the card's
/// definition has the key.
pub proof fn definitions_are_asked_by_key(
    e: Env,
    db: Db,
    r: Recipe,
    stmt: Stmt,
    root: u32,
    bindings: Seq<Vec<u32>>,
    tile: Option<SyntheticTile>,
    t: u64,
    iterator: u32,
    offset: u32,
    text: String,
    p: Option<Vec<Segment>>,
    id: u32,
    c: Card,
    d: CardDefinition,
)
    requires
        stmt.segments@.len() == 2,
        stmt.segments@[0] == (Seg::Slot { iterator_id: iterator, offset }),
        path::word_is(stmt.segments@[1], "def_id"@),
        stmt.value == Some(StatementValue::Str { text, path: p }),
        iterator < r.iterators@.len(),
        iterator < bindings.len(),
        offset < bindings[iterator as int]@.len(),
        bindings[iterator as int]@[offset as int] == id,
        id != 0,
        history::prior_at(db.cards, id, t) == Some(c),
        content::definition(e.catalog.definitions@, c.packed_definition) == Some(d),
    ensures
        verify::predicate(e, db, r, stmt, root, bindings, tile, t) is Ok <==> d.key@ == text@,
{
    assert(stmt.segments@.take(1)[0] == stmt.segments@[0]);
}

/// A path of an input that goes on to the owner stands for the owner of the card that
/// it stood for before, and one that goes on to the parent for the root of that card's
/// stack.
pub proof fn inputs_go_on_to_owner_and_parent(
    e: Env,
    db: Db,
    r: Recipe,
    p: Seq<Seg>,
    s: Seg,
    root: u32,
    bindings: Seq<Vec<u32>>,
    tile: Option<SyntheticTile>,
    t: u64,
    start: u32,
    id: u32,
    c: Card,
    next: Card,
)
    requires
        p.len() > 0,
        verify::anchored(r, p, root, bindings, tile) == Ok::<
            verify::Anchored,
            verify::VerifyError,
        >(verify::Anchored::Card { card_id: start }),
        verify::walked(e, db, r, p, p.len() as int, bindings, start, t) == Ok::<
            u32,
            verify::VerifyError,
        >(id),
        history::prior_at(db.cards, id, t) == Some(c),
        path::word_is(s, "owner"@) && c.owner_id != 0 && history::prior_at(
            db.cards,
            c.owner_id,
            t,
        ) == Some(next) || path::word_is(s, "parent"@) && cards::is_member(e, c)
            && history::prior_at(db.cards, c.micro_location, t) == Some(next),
    ensures
        verify::subject(e, db, r, p, root, bindings, tile, t) matches Ok(was) && was.0
            == c.packed_definition,
        verify::subject(e, db, r, p.push(s), root, bindings, tile, t) matches Ok(now) && now.0
            == next.packed_definition,
{
    lemma_words();
    let q = p.push(s);
    assert(q[0] == p[0]);
    lemma_same_input_walk(e, db, r, p, s, bindings, start, t, p.len() as int);
    assert(q[q.len() - 1] == s);
    assert(verify::anchored(r, q, root, bindings, tile) == verify::anchored(
        r,
        p,
        root,
        bindings,
        tile,
    ));
}

proof fn lemma_same_input_walk(
    e: Env,
    db: Db,
    r: Recipe,
    p: Seq<Seg>,
    s: Seg,
    bindings: Seq<Vec<u32>>,
    start: u32,
    t: u64,
    n: int,
)
    requires
        n <= p.len(),
    ensures
        verify::walked(e, db, r, p.push(s), n, bindings, start, t) == verify::walked(
            e,
            db,
            r,
            p,
            n,
            bindings,
            start,
            t,
        ),
    decreases n,
{
    if n > 1 {
        lemma_same_input_walk(e, db, r, p, s, bindings, start, t, n - 1);
        assert(p.push(s)[n - 1] == p[n - 1]);
        if n > 2 {
            assert(p.push(s)[n - 2] == p[n - 2]);
        }
    }
}

/// A card that is alive and that no action claims, that nobody shares where it is
/// claimed, that is touched less often than a client may, that belongs to the caller or
/// the world, and that is bound to no recipe of its own, can take part.
pub proof fn free_cards_can_take_part(
    e: Env,
    db: Db,
    card_id: u32,
    claims: bool,
    recipe_id: u16,
    caller: u32,
    t: u64,
    c: Card,
)
    requires
        history::prior_at(db.cards, card_id, t) == Some(c),
        c.flags_state & e.state.dead == 0,
        cards::hold_value(e, HoldKind::SlotHold, c.flags_bk) == 0,
        claims ==> cards::hold_value(e, HoldKind::SlotShare, c.flags_bk) == 0,
        cards::hold_value(e, HoldKind::Touch, c.flags_bk) < flags::TOUCH_COUNT_CLIENT_CAP,
        match cards::player_of(e, db, card_id) {
            Some(p) => p == caller || p == 0,
            None => true,
        },
        c.flags_state & e.state.magnetic == 0,
    ensures
        verify::card_error(e, db, card_id, claims, recipe_id, caller, t) is None,
{
}

/// A reference `slot.<branch>.<offset>` at the start of a path stands for the slot of
/// the first top-level iterator over that branch, at that offset.
pub proof fn slot_references_stand_for_their_iterator(
    raw: Seq<Segment>,
    its: Seq<SlotIterator>,
    word: String,
    branch: u8,
    offset: u32,
    k: int,
)
    requires
        raw == seq![
            Segment::Word(word),
            Segment::Index(branch as u32),
            Segment::Index(offset),
        ],
        word@ == "slot"@,
        0 <= k < its.len() <= u32::MAX,
        its[k].parent@.len() == 0,
        its[k].branch == branch,
        forall|j: int|
            0 <= j < k ==> !((#[trigger] its[j]).parent@.len() == 0 && its[j].branch == branch),
    ensures
        path::collapsed(raw, its, 0, Seq::empty()) matches Ok(p) && p.len() == 1 && p[0] == (
        Seg::Slot { iterator_id: k as u32, offset }),
{
    lemma_iterator_over(its, branch, k);
    reveal_with_fuel(path::collapsed, 3);
    assert(path::slot_triplet(raw, 0) == Some((branch as u32, offset)));
}

proof fn lemma_iterator_over(its: Seq<SlotIterator>, branch: u8, k: int)
    requires
        0 <= k < its.len(),
        its[k].parent@.len() == 0,
        its[k].branch == branch,
        forall|j: int|
            0 <= j < k ==> !((#[trigger] its[j]).parent@.len() == 0 && its[j].branch == branch),
    ensures
        path::iterator_over(its, Seq::empty(), branch) == Some(k),
    decreases its.len(),
{
    let init = its.drop_last();
    if k < init.len() {
        assert(init[k] == its[k]);
        assert forall|j: int| 0 <= j < k implies !((#[trigger] init[j]).parent@.len() == 0
            && init[j].branch == branch) by {
            assert(init[j] == its[j]);
        }
        lemma_iterator_over(init, branch, k);
    } else {
        lemma_no_iterator(init, branch);
        assert(its.last() == its[k]);
        assert(path::same_path(its[k].parent@, Seq::empty()));
    }
}

proof fn lemma_no_iterator(its: Seq<SlotIterator>, branch: u8)
    requires
        forall|j: int|
            0 <= j < its.len() ==> !((#[trigger] its[j]).parent@.len() == 0 && its[j].branch
                == branch),
    ensures
        path::iterator_over(its, Seq::empty(), branch) is None,
    decreases its.len(),
{
    if its.len() > 0 {
        let init = its.drop_last();
        assert forall|j: int| 0 <= j < init.len() implies !((#[trigger] init[j]).parent@.len() == 0
            && init[j].branch == branch) by {
            assert(init[j] == its[j]);
        }
        lemma_no_iterator(init, branch);
        assert(its[its.len() - 1] == its.last());
    }
}

/// A statement `<host>.inventory.create: key` creates a card of that key for the card at
/// the path; `<host>.stack.n.create: key` creates it on that card's stack.
pub proof fn create_statements_name_their_host(
    e: Env,
    db: Db,
    w: Walk,
    r: Recipe,
    p: Seq<Seg>,
    kind: Seg,
    index: u32,
    op: Seg,
    text: String,
    as_path: Option<Vec<Segment>>,
    bindings: Seq<Vec<u32>>,
    root: u32,
    hex: Option<HexLocation>,
    id: u32,
)
    requires
        p.len() > 0,
        p[0] is Slot || path::word_is(p[0], "root"@),
        path::word_is(op, "create"@),
        path::target(e, db, p, bindings, root) == Ok::<u32, path::PathError>(id),
    ensures
        path::word_is(kind, "inventory"@) ==> (tape::stmt_done(
            e,
            db,
            w,
            r,
            p.push(kind).push(op),
            Some(StatementValue::Str { text, path: as_path }),
            bindings,
            root,
            hex,
        ) matches Ok(out) && out.pending.len() == w.pending.len() + 1 && out.pending.last() == (
        Effect::Create { def_key: text, owner_id: id })),
        path::word_is(kind, "stack"@) ==> (tape::stmt_done(
            e,
            db,
            w,
            r,
            p.push(kind).push(Seg::Index(index)).push(op),
            Some(StatementValue::Str { text, path: as_path }),
            bindings,
            root,
            hex,
        ) matches Ok(out) && out.pending.len() == w.pending.len() + 1 && out.pending.last() == (
        Effect::CreateDeferred { def_key: text, host_card_id: id })),
{
    lemma_words();
    let n = p.len() as int;
    let a = p.push(kind).push(op);
    assert(a.take(n + 1) =~= p.push(kind));
    assert(p.push(kind).take(n) =~= p);
    assert(a[0] == p[0]);
    let i = Seg::Index(index);
    let b = p.push(kind).push(i).push(op);
    assert(b.take(n + 2) =~= p.push(kind).push(i));
    assert(p.push(kind).push(i).take(n) =~= p);
    assert(b[0] == p[0]);
}

/// A statement `<soul>.blueprint.unlock: key` unlocks the blueprint of that key for the
/// card at the path.
pub proof fn unlock_statements_name_their_soul(
    e: Env,
    db: Db,
    w: Walk,
    r: Recipe,
    p: Seq<Seg>,
    kind: Seg,
    op: Seg,
    text: String,
    as_path: Option<Vec<Segment>>,
    bindings: Seq<Vec<u32>>,
    root: u32,
    hex: Option<HexLocation>,
    id: u32,
)
    requires
        p.len() > 0,
        p[0] is Slot || path::word_is(p[0], "root"@),
        path::word_is(kind, "blueprint"@),
        path::word_is(op, "unlock"@),
        path::target(e, db, p, bindings, root) == Ok::<u32, path::PathError>(id),
    ensures
        tape::stmt_done(
            e,
            db,
            w,
            r,
            p.push(kind).push(op),
            Some(StatementValue::Str { text, path: as_path }),
            bindings,
            root,
            hex,
        ) matches Ok(out) && out.pending.len() == w.pending.len() + 1 && out.pending.last() == (
        Effect::UnlockBlueprint { blueprint_key: text, target_card_id: id }),
{
    lemma_words();
    let n = p.len() as int;
    let a = p.push(kind).push(op);
    assert(a.take(n + 1) =~= p.push(kind));
    assert(p.push(kind).take(n) =~= p);
    assert(a[0] == p[0]);
}

/// A statement `<card>.style.set: value` sets the progress style of the card at the path
/// and of no other.
pub proof fn style_statements_name_their_card(
    e: Env,
    db: Db,
    w: Walk,
    r: Recipe,
    p: Seq<Seg>,
    kind: Seg,
    op: Seg,
    n: i64,
    bindings: Seq<Vec<u32>>,
    root: u32,
    hex: Option<HexLocation>,
    id: u32,
)
    requires
        p.len() > 0,
        p[0] is Slot || path::word_is(p[0], "root"@),
        path::word_is(kind, "style"@),
        path::word_is(op, "set"@),
        path::target(e, db, p, bindings, root) == Ok::<u32, path::PathError>(id),
        0 <= n < 8,
    ensures
        tape::stmt_done(
            e,
            db,
            w,
            r,
            p.push(kind).push(op),
            Some(StatementValue::Int(n)),
            bindings,
            root,
            hex,
        ) matches Ok(out) && out.pending == w.pending && out.vars == w.vars && out.duration
            == w.duration && out.styles.contains_key(id) && out.styles[id] == n && (forall|k: u32|
            k != id ==> (#[trigger] out.styles.contains_key(k) == w.styles.contains_key(k)) && (
            w.styles.contains_key(k) ==> out.styles[k] == w.styles[k])),
{
    lemma_words();
    let len = p.len() as int;
    let a = p.push(kind).push(op);
    assert(a.take(len + 1) =~= p.push(kind));
    assert(p.push(kind).take(len) =~= p);
    assert(a[0] == p[0]);
}

/// A root can take part where it is alive, claimed by nobody, shared by nobody where the
/// recipe claims it, touched less often than a client may, and does not refuse cards on
/// top of it; and only there.
pub proof fn roots_take_part_where_they_are_free(
    e: Env,
    db: Db,
    r: Recipe,
    root: u32,
    t: u64,
    c: Card,
)
    requires
        root != 0,
        history::prior_at(db.cards, root, t) == Some(c),
    ensures
        verify::root_error(e, db, r, root, t) is None <==> {
            &&& c.flags_state & e.state.dead == 0
            &&& cards::hold_value(e, HoldKind::SlotHold, c.flags_bk) == 0
            &&& r.root_slot_hold ==> cards::hold_value(e, HoldKind::SlotShare, c.flags_bk) == 0
            &&& cards::hold_value(e, HoldKind::Touch, c.flags_bk) < flags::TOUCH_COUNT_CLIENT_CAP
            &&& cards::hold_value(e, HoldKind::DropHold, c.flags_bk) == 0
        },
{
}

/// A magnetic card takes part in the recipe of its own definition and in no other.
pub proof fn magnetic_cards_follow_their_recipe(
    e: Env,
    c: Card,
    card_id: u32,
    recipe_id: u16,
    d: CardDefinition,
    own: u16,
)
    requires
        c.flags_state & e.state.magnetic != 0,
        content::definition(e.catalog.definitions@, c.packed_definition) == Some(d),
        d.lifecycle_recipe == Some(own),
    ensures
        verify::magnetic_error(e, c, card_id, recipe_id) is None <==> recipe_id == own,
{
}

// ---- plans ---------------------------------------------------------
/// A plan executes every statement of the output, each on what those before it left,
/// starting with no effects, no time and empty variables; it has the effects, the time
/// and the styles that are left at the end.
pub proof fn plans_execute_every_statement(
    e: Env,
    db: Db,
    r: Recipe,
    bindings: Seq<Vec<u32>>,
    root: u32,
    hex: Option<HexLocation>,
    k: int,
)
    requires
        0 <= k < r.output@.len(),
        plan::planned(e, db, r, bindings, root, hex) is Ok,
    ensures
        ({
            let walk = |n: int| plan::tape_walked(e, db, r, bindings, root, hex, n);
            let p = plan::planned(e, db, r, bindings, root, hex)->Ok_0;
            &&& walk(0) matches Ok(w) && w.pending.len() == 0 && w.duration == 0 && w.vars.len()
                == 8 && (forall|i: int| 0 <= i < 8 ==> #[trigger] w.vars[i] == 0)
            &&& walk(k) matches Ok(w) && (walk(k + 1) matches Ok(next) && tape::stmt_done(
                e,
                db,
                w,
                r,
                r.output@[k].segments@,
                r.output@[k].value,
                bindings,
                root,
                hex,
            ) == Ok::<Walk, tape::TapeError>(next))
            &&& walk(r.output@.len() as int) matches Ok(w) && p.pending == w.pending && p.duration
                == w.duration && p.styles == w.styles
        }),
{
    lemma_walks_begin_well(e, db, r, bindings, root, hex, k + 1, r.output@.len() as int);
    lemma_walks_begin_well(e, db, r, bindings, root, hex, k, r.output@.len() as int);
}

proof fn lemma_walks_begin_well(
    e: Env,
    db: Db,
    r: Recipe,
    bindings: Seq<Vec<u32>>,
    root: u32,
    hex: Option<HexLocation>,
    k: int,
    n: int,
)
    requires
        0 <= k <= n,
        plan::tape_walked(e, db, r, bindings, root, hex, n) is Ok,
    ensures
        plan::tape_walked(e, db, r, bindings, root, hex, k) is Ok,
    decreases n,
{
    if k < n {
        lemma_walks_begin_well(e, db, r, bindings, root, hex, k, n - 1);
    }
}

/// A path of an input that goes on to a slot stands for the card bound to the slot. Where
/// the slot is one of another card's stack, the bound card has to stand in the branch
/// that the slot is of.
pub proof fn inputs_go_on_to_slots_of_their_branch(
    e: Env,
    db: Db,
    r: Recipe,
    p: Seq<Seg>,
    i: int,
    bindings: Seq<Vec<u32>>,
    card_id: u32,
    t: u64,
    iterator_id: u32,
    offset: u32,
    c: Card,
)
    requires
        0 < i < p.len(),
        p[i] == (Seg::Slot { iterator_id, offset }),
        !(i > 1 && p[i - 1] is Slot),
        iterator_id < r.iterators@.len(),
        iterator_id < bindings.len(),
        offset < bindings[iterator_id as int]@.len(),
        bindings[iterator_id as int]@[offset as int] == c.card_id,
        c.card_id != 0,
        history::prior_at(db.cards, c.card_id, t) == Some(c),
    ensures
        verify::stepped(e, db, r, p, i, bindings, card_id, t) is Ok <==> r.iterators@[iterator_id
            as int].parent@.len() == 0 || cards::branch_of(e, c)
            == r.iterators@[iterator_id as int].branch,
        verify::stepped(e, db, r, p, i, bindings, card_id, t) matches Ok(id) ==> id == c.card_id,
{
}

} // verus!
