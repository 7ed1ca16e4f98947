//! The content catalog: card definitions, aspects, recipes and blueprints.
//!
//! The catalog is plain data that a deployment supplies. Every lookup takes
//! the first entry that matches.
use vstd::prelude::*;

verus! {

/// Numeric id of an aspect.
pub type AspectId = u16;

/// One stock slot of a definition: a per-row counter bound to an aspect.
#[derive(Clone, Copy, Debug, PartialEq, Eq, Structural)]
pub struct StockSlot {
    pub aspect_id: AspectId,
    /// Value a fresh row starts with.
    pub default: u8,
}

/// One static aspect value of a definition.
#[derive(Clone, Copy, Debug, PartialEq, Eq, Structural)]
pub struct AspectValue {
    pub aspect_id: AspectId,
    pub value: i32,
}

/// A card definition.
pub struct CardDefinition {
    pub packed: u16,
    pub key: String,
    /// State-flag bits that every card of this definition starts with.
    pub flags: u32,
    pub aspects: Vec<AspectValue>,
    pub stock: Vec<StockSlot>,
    /// The recipe that alone may resolve a magnetic card of this definition.
    pub lifecycle_recipe: Option<u16>,
    /// How long the magnetic phase of such a card lasts.
    pub magnetic_duration_ms: Option<u64>,
}

/// An aspect with everything it descends from.
pub struct AspectDefinition {
    pub name: String,
    pub id: AspectId,
    pub ancestors: Vec<AspectId>,
}

/// A blueprint of the catalog.
pub struct Blueprint {
    pub key: String,
    pub id: u16,
}

/// One segment of a parsed path expression.
pub enum Segment {
    Word(String),
    Index(u32),
}

/// One segment of a recipe statement: a word, a number, or a slot reference
/// into the bindings of an iterator.
pub enum Seg {
    Word(String),
    Index(u32),
    Slot { iterator_id: u32, offset: u32 },
}

/// The right-hand side of a statement.
pub enum StatementValue {
    Int(i64),
    /// A text, with the segments it parses to as a path (`None` where it is no
    /// path).
    Str { text: String, path: Option<Vec<Segment>> },
}

/// A recipe statement `<segments>: <value>`.
pub struct Stmt {
    pub segments: Vec<Seg>,
    pub value: Option<StatementValue>,
    pub slot_hold: bool,
    pub position_hold: bool,
}

/// A row of slots that a proposal binds to cards.
pub struct SlotIterator {
    /// Path of the card whose branch is iterated; empty for the top level.
    pub parent: Vec<Seg>,
    pub branch: u8,
    pub slot_hold: bool,
    pub position_hold: bool,
}

/// A recipe: input predicates and an output tape over bound slots.
pub struct Recipe {
    pub id: u16,
    pub iterators: Vec<SlotIterator>,
    pub input: Vec<Stmt>,
    pub output: Vec<Stmt>,
    /// The recipe anchors on its root card.
    pub anchors_root: bool,
    pub root_slot_hold: bool,
    pub root_position_hold: bool,
}

/// All content of a deployment.
pub struct Catalog {
    pub definitions: Vec<CardDefinition>,
    pub aspects: Vec<AspectDefinition>,
    pub blueprints: Vec<Blueprint>,
    pub recipes: Vec<Recipe>,
    /// The card type of mini-zone anchors, where the content has one.
    pub mini_zone_type: Option<u8>,
}

/// The first definition registered under `packed`.
pub open spec fn definition(defs: Seq<CardDefinition>, packed: u16) -> Option<CardDefinition>
    decreases defs.len(),
{
    if defs.len() == 0 {
        None
    } else if defs[0].packed == packed {
        Some(defs[0])
    } else {
        definition(defs.skip(1), packed)
    }
}

/// The packed id of the first definition named `key`.
pub open spec fn packed_by_key(defs: Seq<CardDefinition>, key: Seq<char>) -> Option<u16>
    decreases defs.len(),
{
    if defs.len() == 0 {
        None
    } else if defs[0].key@ == key {
        Some(defs[0].packed)
    } else {
        packed_by_key(defs.skip(1), key)
    }
}

/// The id of the first aspect called `name`.
pub open spec fn aspect_by_name(aspects: Seq<AspectDefinition>, name: Seq<char>) -> Option<AspectId>
    decreases aspects.len(),
{
    if aspects.len() == 0 {
        None
    } else if aspects[0].name@ == name {
        Some(aspects[0].id)
    } else {
        aspect_by_name(aspects.skip(1), name)
    }
}

/// `a` is a registered aspect that is `of` or descends from it.
pub open spec fn descends(aspects: Seq<AspectDefinition>, a: AspectId, of: AspectId) -> bool
    decreases aspects.len(),
{
    if aspects.len() == 0 {
        false
    } else if aspects[0].id == a {
        a == of || aspects[0].ancestors@.contains(of)
    } else {
        descends(aspects.skip(1), a, of)
    }
}

/// The sum of the aspect values that are `wanted` or descend from it.
pub open spec fn aspect_sum(
    aspects: Seq<AspectDefinition>,
    entries: Seq<AspectValue>,
    wanted: AspectId,
) -> int
    decreases entries.len(),
{
    if entries.len() == 0 {
        0
    } else {
        let before = aspect_sum(aspects, entries.drop_last(), wanted);
        if descends(aspects, entries.last().aspect_id, wanted) {
            before + entries.last().value
        } else {
            before
        }
    }
}

/// The number of stock slots whose aspect is `wanted` or descends from it, and
/// the sum of their row stocks.
pub open spec fn stock_sum(
    aspects: Seq<AspectDefinition>,
    slots: Seq<StockSlot>,
    stocks: (u8, u8),
    wanted: AspectId,
) -> (int, int)
    decreases slots.len(),
{
    if slots.len() == 0 {
        (0, 0)
    } else {
        let before = stock_sum(aspects, slots.drop_last(), stocks, wanted);
        if descends(aspects, slots.last().aspect_id, wanted) {
            (
                before.0 + 1,
                before.1 + if slots.len() == 1 {
                    stocks.0
                } else {
                    stocks.1
                },
            )
        } else {
            before
        }
    }
}

/// Every sum that the rules take over a definition fits in `i32`, entry by entry.
pub open spec fn sums_fit(aspects: Seq<AspectDefinition>, d: CardDefinition) -> bool {
    &&& forall|n: int, wanted: AspectId|
        0 <= n <= d.aspects@.len() ==> i32::MIN <= #[trigger] aspect_sum(
            aspects,
            d.aspects@.take(n),
            wanted,
        ) <= i32::MAX
    &&& forall|n: int, stocks: (u8, u8), wanted: AspectId|
        0 <= n <= d.stock@.len() ==> (#[trigger] stock_sum(
            aspects,
            d.stock@.take(n),
            stocks,
            wanted,
        )).1 <= i32::MAX
}

impl Catalog {
    /// The sums over every definition fit in `i32`.
    pub open spec fn summable(self) -> bool {
        forall|i: int|
            0 <= i < self.definitions.len() ==> sums_fit(
                self.aspects@,
                #[trigger] self.definitions[i],
            )
    }
}

/// The sum of the magnitudes of aspect values.
pub open spec fn magnitude(entries: Seq<AspectValue>) -> int
    decreases entries.len(),
{
    if entries.len() == 0 {
        0
    } else {
        let v = entries.last().value as int;
        magnitude(entries.drop_last()) + if v < 0 {
            -v
        } else {
            v
        }
    }
}

/// The magnitudes of a definition's aspect values, and full row stocks in all of its
/// slots, add up to an `i32`.
pub open spec fn plainly_fits(d: CardDefinition) -> bool {
    magnitude(d.aspects@) <= i32::MAX && d.stock@.len() * 255 <= i32::MAX
}

proof fn lemma_magnitude_bounds(
    aspects: Seq<AspectDefinition>,
    entries: Seq<AspectValue>,
    wanted: AspectId,
)
    ensures
        -magnitude(entries) <= aspect_sum(aspects, entries, wanted) <= magnitude(entries),
        magnitude(entries) >= 0,
    decreases entries.len(),
{
    if entries.len() > 0 {
        lemma_magnitude_bounds(aspects, entries.drop_last(), wanted);
    }
}

proof fn lemma_magnitude_grows(entries: Seq<AspectValue>, n: int)
    requires
        0 <= n <= entries.len(),
    ensures
        magnitude(entries.take(n)) <= magnitude(entries),
    decreases entries.len() - n,
{
    if n < entries.len() {
        lemma_magnitude_grows(entries, n + 1);
        assert(entries.take(n + 1).drop_last() =~= entries.take(n));
    } else {
        assert(entries.take(n) =~= entries);
    }
}

proof fn lemma_stocks_bounded(
    aspects: Seq<AspectDefinition>,
    slots: Seq<StockSlot>,
    stocks: (u8, u8),
    wanted: AspectId,
)
    ensures
        stock_sum(aspects, slots, stocks, wanted).1 <= slots.len() * 255,
    decreases slots.len(),
{
    if slots.len() > 0 {
        lemma_stocks_bounded(aspects, slots.drop_last(), stocks, wanted);
    }
}

/// Where the magnitudes add up to an `i32`, every sum over the definition fits.
pub proof fn plain_sums_fit(aspects: Seq<AspectDefinition>, d: CardDefinition)
    requires
        plainly_fits(d),
    ensures
        sums_fit(aspects, d),
{
    assert forall|n: int, wanted: AspectId| 0 <= n <= d.aspects@.len() implies i32::MIN
        <= #[trigger] aspect_sum(aspects, d.aspects@.take(n), wanted) <= i32::MAX by {
        lemma_magnitude_bounds(aspects, d.aspects@.take(n), wanted);
        lemma_magnitude_grows(d.aspects@, n);
    }
    assert forall|n: int, stocks: (u8, u8), wanted: AspectId| 0 <= n <= d.stock@.len() implies (
    #[trigger] stock_sum(aspects, d.stock@.take(n), stocks, wanted)).1 <= i32::MAX by {
        lemma_stocks_bounded(aspects, d.stock@.take(n), stocks, wanted);
    }
}

fn fits_plainly(d: &CardDefinition) -> (ok: bool)
    ensures
        ok == plainly_fits(*d),
{
    let entries = &d.aspects;
    let mut total: i64 = 0;
    let mut i: usize = 0;
    while i < entries.len()
        invariant
            i <= entries.len(),
            entries@ == d.aspects@,
            0 <= total <= i32::MAX,
            total == magnitude(entries@.take(i as int)),
        decreases entries.len() - i,
    {
        proof {
            let next = entries@.take(i + 1);
            assert(next.drop_last() =~= entries@.take(i as int));
            assert(next.last() == entries@[i as int]);
            lemma_magnitude_grows(entries@, i + 1);
        }
        let v: i64 = entries[i].value as i64;
        total = total + if v < 0 {
            -v
        } else {
            v
        };
        if total > i32::MAX as i64 {
            return false;
        }
        i = i + 1;
    }
    assert(entries@.take(entries.len() as int) =~= entries@);
    d.stock.len() <= 8_421_504
}

impl Catalog {
    /// The magnitudes in every definition add up to an `i32`.
    pub open spec fn plainly_summable(self) -> bool {
        forall|i: int|
            0 <= i < self.definitions.len() ==> plainly_fits(#[trigger] self.definitions[i])
    }

    /// Test whether the magnitudes in every definition add up to an `i32`; the sums of
    /// the rules then fit.
    pub fn is_plainly_summable(&self) -> (ok: bool)
        ensures
            ok == self.plainly_summable(),
            ok ==> self.summable(),
    {
        let mut i: usize = 0;
        while i < self.definitions.len()
            invariant
                i <= self.definitions.len(),
                forall|j: int| 0 <= j < i ==> plainly_fits(#[trigger] self.definitions[j]),
            decreases self.definitions.len() - i,
        {
            if !fits_plainly(&self.definitions[i]) {
                return false;
            }
            i = i + 1;
        }
        proof {
            assert forall|j: int| 0 <= j < self.definitions.len() implies sums_fit(
                self.aspects@,
                #[trigger] self.definitions[j],
            ) by {
                plain_sums_fit(self.aspects@, self.definitions[j]);
            }
        }
        true
    }
}

/// The id of the first blueprint called `key`.
pub open spec fn blueprint_by_key(blueprints: Seq<Blueprint>, key: Seq<char>) -> Option<u16>
    decreases blueprints.len(),
{
    if blueprints.len() == 0 {
        None
    } else if blueprints[0].key@ == key {
        Some(blueprints[0].id)
    } else {
        blueprint_by_key(blueprints.skip(1), key)
    }
}

/// The first recipe registered under `id`.
pub open spec fn recipe_by_id(recipes: Seq<Recipe>, id: u16) -> Option<Recipe>
    decreases recipes.len(),
{
    if recipes.len() == 0 {
        None
    } else if recipes[0].id == id {
        Some(recipes[0])
    } else {
        recipe_by_id(recipes.skip(1), id)
    }
}

impl Catalog {
    pub fn decode_definition(&self, packed: u16) -> (found: Option<&CardDefinition>)
        ensures
            match found {
                Some(d) => definition(self.definitions@, packed) == Some(*d),
                None => definition(self.definitions@, packed) is None,
            },
            found matches Some(d) ==> self.definitions@.contains(*d),
    {
        let defs = &self.definitions;
        let mut i: usize = 0;
        assert(defs@.skip(0) =~= defs@);
        while i < defs.len()
            invariant
                i <= defs.len(),
                defs@ == self.definitions@,
                definition(defs@, packed) == definition(defs@.skip(i as int), packed),
            decreases defs.len() - i,
        {
            assert(defs@.skip(i as int)[0] == defs@[i as int]);
            assert(defs@.skip(i as int).skip(1) =~= defs@.skip(i + 1));
            if defs[i].packed == packed {
                return Some(&defs[i]);
            }
            i = i + 1;
        }
        None
    }

    pub fn find_packed_by_key(&self, key: &String) -> (found: Option<u16>)
        ensures
            found == packed_by_key(self.definitions@, key@),
    {
        let defs = &self.definitions;
        let mut i: usize = 0;
        assert(defs@.skip(0) =~= defs@);
        while i < defs.len()
            invariant
                i <= defs.len(),
                defs@ == self.definitions@,
                packed_by_key(defs@, key@) == packed_by_key(defs@.skip(i as int), key@),
            decreases defs.len() - i,
        {
            assert(defs@.skip(i as int)[0] == defs@[i as int]);
            assert(defs@.skip(i as int).skip(1) =~= defs@.skip(i + 1));
            if defs[i].key == *key {
                return Some(defs[i].packed);
            }
            i = i + 1;
        }
        None
    }

    pub fn aspect_id(&self, name: &String) -> (found: Option<AspectId>)
        ensures
            found == aspect_by_name(self.aspects@, name@),
    {
        let aspects = &self.aspects;
        let mut i: usize = 0;
        assert(aspects@.skip(0) =~= aspects@);
        while i < aspects.len()
            invariant
                i <= aspects.len(),
                aspects@ == self.aspects@,
                aspect_by_name(aspects@, name@) == aspect_by_name(aspects@.skip(i as int), name@),
            decreases aspects.len() - i,
        {
            assert(aspects@.skip(i as int)[0] == aspects@[i as int]);
            assert(aspects@.skip(i as int).skip(1) =~= aspects@.skip(i + 1));
            if aspects[i].name == *name {
                return Some(aspects[i].id);
            }
            i = i + 1;
        }
        None
    }

    pub fn is_aspect_descendant(&self, a: AspectId, of: AspectId) -> (r: bool)
        ensures
            r == descends(self.aspects@, a, of),
    {
        let aspects = &self.aspects;
        let mut i: usize = 0;
        assert(aspects@.skip(0) =~= aspects@);
        while i < aspects.len()
            invariant
                i <= aspects.len(),
                aspects@ == self.aspects@,
                descends(aspects@, a, of) == descends(aspects@.skip(i as int), a, of),
            decreases aspects.len() - i,
        {
            assert(aspects@.skip(i as int)[0] == aspects@[i as int]);
            assert(aspects@.skip(i as int).skip(1) =~= aspects@.skip(i + 1));
            if aspects[i].id == a {
                return a == of || contains_id(&aspects[i].ancestors, of);
            }
            i = i + 1;
        }
        false
    }

    pub fn find_blueprint(&self, key: &String) -> (found: Option<u16>)
        ensures
            found == blueprint_by_key(self.blueprints@, key@),
    {
        let all = &self.blueprints;
        let mut i: usize = 0;
        assert(all@.skip(0) =~= all@);
        while i < all.len()
            invariant
                i <= all.len(),
                all@ == self.blueprints@,
                blueprint_by_key(all@, key@) == blueprint_by_key(all@.skip(i as int), key@),
            decreases all.len() - i,
        {
            assert(all@.skip(i as int)[0] == all@[i as int]);
            assert(all@.skip(i as int).skip(1) =~= all@.skip(i + 1));
            if all[i].key == *key {
                return Some(all[i].id);
            }
            i = i + 1;
        }
        None
    }

    pub fn recipe(&self, id: u16) -> (found: Option<&Recipe>)
        ensures
            match found {
                Some(r) => recipe_by_id(self.recipes@, id) == Some(*r),
                None => recipe_by_id(self.recipes@, id) is None,
            },
    {
        let all = &self.recipes;
        let mut i: usize = 0;
        assert(all@.skip(0) =~= all@);
        while i < all.len()
            invariant
                i <= all.len(),
                all@ == self.recipes@,
                recipe_by_id(all@, id) == recipe_by_id(all@.skip(i as int), id),
            decreases all.len() - i,
        {
            assert(all@.skip(i as int)[0] == all@[i as int]);
            assert(all@.skip(i as int).skip(1) =~= all@.skip(i + 1));
            if all[i].id == id {
                return Some(&all[i]);
            }
            i = i + 1;
        }
        None
    }
}

fn contains_id(ids: &Vec<AspectId>, wanted: AspectId) -> (r: bool)
    ensures
        r == ids@.contains(wanted),
{
    let mut i: usize = 0;
    while i < ids.len()
        invariant
            i <= ids.len(),
            forall|j: int| 0 <= j < i ==> ids[j] != wanted,
        decreases ids.len() - i,
    {
        if ids[i] == wanted {
            return true;
        }
        i = i + 1;
    }
    false
}

} // verus!
