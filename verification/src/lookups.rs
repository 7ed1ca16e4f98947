//! What a lookup in the catalog or in the flag registry finds.
use vstd::prelude::*;

use crate::content;
use crate::content::AspectDefinition;
use crate::content::AspectId;
use crate::content::AspectValue;
use crate::content::Blueprint;
use crate::content::CardDefinition;
use crate::content::Recipe;
use crate::registry;
use crate::registry::FlagEntry;

verus! {

// ---- catalog -------------------------------------------------------
/// A packed id leads to the first definition that has it.
pub proof fn definitions_are_found_by_id(defs: Seq<CardDefinition>, packed: u16, i: int)
    requires
        0 <= i < defs.len(),
        defs[i].packed == packed,
        forall|j: int| 0 <= j < i ==> !((#[trigger] defs[j]).packed == packed),
    ensures
        content::definition(defs, packed) == Some(defs[i]),
    decreases defs.len(),
{
    if i > 0 {
        let rest = defs.skip(1);
        assert(rest[i - 1] == defs[i]);
        assert forall|j: int| 0 <= j < i - 1 implies !((#[trigger] rest[j]).packed == packed) by {
            assert(rest[j] == defs[j + 1]);
        }
        definitions_are_found_by_id(rest, packed, i - 1);
    }
}

/// An id that no definition has leads to none.
pub proof fn unknown_ids_have_no_definition(defs: Seq<CardDefinition>, packed: u16)
    requires
        forall|j: int| 0 <= j < defs.len() ==> !((#[trigger] defs[j]).packed == packed),
    ensures
        content::definition(defs, packed) is None,
    decreases defs.len(),
{
    if defs.len() > 0 {
        let rest = defs.skip(1);
        assert forall|j: int| 0 <= j < rest.len() implies !((#[trigger] rest[j]).packed == packed) by {
            assert(rest[j] == defs[j + 1]);
        }
        unknown_ids_have_no_definition(rest, packed);
    }
}

/// A key leads to the id of the first definition that has the key.
pub proof fn keys_lead_to_their_definition(defs: Seq<CardDefinition>, key: Seq<char>, i: int)
    requires
        0 <= i < defs.len(),
        defs[i].key@ == key,
        forall|j: int| 0 <= j < i ==> !((#[trigger] defs[j]).key@ == key),
    ensures
        content::packed_by_key(defs, key) == Some(defs[i].packed),
    decreases defs.len(),
{
    if i > 0 {
        let rest = defs.skip(1);
        assert(rest[i - 1] == defs[i]);
        assert forall|j: int| 0 <= j < i - 1 implies !((#[trigger] rest[j]).key@ == key) by {
            assert(rest[j] == defs[j + 1]);
        }
        keys_lead_to_their_definition(rest, key, i - 1);
    }
}

/// A key that no definition has leads to none.
pub proof fn unknown_keys_lead_nowhere(defs: Seq<CardDefinition>, key: Seq<char>)
    requires
        forall|j: int| 0 <= j < defs.len() ==> !((#[trigger] defs[j]).key@ == key),
    ensures
        content::packed_by_key(defs, key) is None,
    decreases defs.len(),
{
    if defs.len() > 0 {
        let rest = defs.skip(1);
        assert forall|j: int| 0 <= j < rest.len() implies !((#[trigger] rest[j]).key@ == key) by {
            assert(rest[j] == defs[j + 1]);
        }
        unknown_keys_lead_nowhere(rest, key);
    }
}

/// A name leads to the id of the first aspect that has the name.
pub proof fn names_lead_to_their_aspect(aspects: Seq<AspectDefinition>, name: Seq<char>, i: int)
    requires
        0 <= i < aspects.len(),
        aspects[i].name@ == name,
        forall|j: int| 0 <= j < i ==> !((#[trigger] aspects[j]).name@ == name),
    ensures
        content::aspect_by_name(aspects, name) == Some(aspects[i].id),
    decreases aspects.len(),
{
    if i > 0 {
        let rest = aspects.skip(1);
        assert(rest[i - 1] == aspects[i]);
        assert forall|j: int| 0 <= j < i - 1 implies !((#[trigger] rest[j]).name@ == name) by {
            assert(rest[j] == aspects[j + 1]);
        }
        names_lead_to_their_aspect(rest, name, i - 1);
    }
}

/// A name that no aspect has leads to none.
pub proof fn unknown_names_lead_to_no_aspect(aspects: Seq<AspectDefinition>, name: Seq<char>)
    requires
        forall|j: int| 0 <= j < aspects.len() ==> !((#[trigger] aspects[j]).name@ == name),
    ensures
        content::aspect_by_name(aspects, name) is None,
    decreases aspects.len(),
{
    if aspects.len() > 0 {
        let rest = aspects.skip(1);
        assert forall|j: int| 0 <= j < rest.len() implies !((#[trigger] rest[j]).name@ == name) by {
            assert(rest[j] == aspects[j + 1]);
        }
        unknown_names_lead_to_no_aspect(rest, name);
    }
}

/// A key leads to the id of the first blueprint that has the key.
pub proof fn keys_lead_to_their_blueprint(blueprints: Seq<Blueprint>, key: Seq<char>, i: int)
    requires
        0 <= i < blueprints.len(),
        blueprints[i].key@ == key,
        forall|j: int| 0 <= j < i ==> !((#[trigger] blueprints[j]).key@ == key),
    ensures
        content::blueprint_by_key(blueprints, key) == Some(blueprints[i].id),
    decreases blueprints.len(),
{
    if i > 0 {
        let rest = blueprints.skip(1);
        assert(rest[i - 1] == blueprints[i]);
        assert forall|j: int| 0 <= j < i - 1 implies !((#[trigger] rest[j]).key@ == key) by {
            assert(rest[j] == blueprints[j + 1]);
        }
        keys_lead_to_their_blueprint(rest, key, i - 1);
    }
}

/// An id leads to the first recipe that has it.
pub proof fn recipes_are_found_by_id(recipes: Seq<Recipe>, id: u16, i: int)
    requires
        0 <= i < recipes.len(),
        recipes[i].id == id,
        forall|j: int| 0 <= j < i ==> !((#[trigger] recipes[j]).id == id),
    ensures
        content::recipe_by_id(recipes, id) == Some(recipes[i]),
    decreases recipes.len(),
{
    if i > 0 {
        let rest = recipes.skip(1);
        assert(rest[i - 1] == recipes[i]);
        assert forall|j: int| 0 <= j < i - 1 implies !((#[trigger] rest[j]).id == id) by {
            assert(rest[j] == recipes[j + 1]);
        }
        recipes_are_found_by_id(rest, id, i - 1);
    }
}

/// A registered aspect counts as itself and as each of its ancestors, and as nothing
/// else. An aspect that is not registered counts as nothing.
pub proof fn aspects_count_as_their_ancestors(
    aspects: Seq<AspectDefinition>,
    a: AspectId,
    of: AspectId,
    i: int,
)
    requires
        0 <= i < aspects.len(),
        aspects[i].id == a,
        forall|j: int| 0 <= j < i ==> (#[trigger] aspects[j]).id != a,
    ensures
        content::descends(aspects, a, a),
        of != a ==> (content::descends(aspects, a, of) <==> exists|k: int|
            0 <= k < aspects[i].ancestors@.len() && aspects[i].ancestors@[k] == of),
    decreases aspects.len(),
{
    if i > 0 {
        let rest = aspects.skip(1);
        assert(rest[i - 1] == aspects[i]);
        assert forall|j: int| 0 <= j < i - 1 implies (#[trigger] rest[j]).id != a by {
            assert(rest[j] == aspects[j + 1]);
        }
        aspects_count_as_their_ancestors(rest, a, of, i - 1);
    }
}

/// The values of an aspect add up: over two lists, the sum is that over the one and that
/// over the other.
pub proof fn aspect_sums_add_up(
    aspects: Seq<AspectDefinition>,
    a: Seq<AspectValue>,
    b: Seq<AspectValue>,
    wanted: AspectId,
)
    ensures
        content::aspect_sum(aspects, a + b, wanted) == content::aspect_sum(aspects, a, wanted)
            + content::aspect_sum(aspects, b, wanted),
    decreases b.len(),
{
    if b.len() == 0 {
        assert(a + b =~= a);
    } else {
        assert((a + b).drop_last() =~= a + b.drop_last());
        assert((a + b).last() == b.last());
        aspect_sums_add_up(aspects, a, b.drop_last(), wanted);
    }
}

/// A single value counts in full for what its aspect counts as, and not at all for
/// anything else.
pub proof fn single_values_count_in_full(
    aspects: Seq<AspectDefinition>,
    v: AspectValue,
    wanted: AspectId,
)
    ensures
        content::aspect_sum(aspects, seq![v], wanted) == if content::descends(
            aspects,
            v.aspect_id,
            wanted,
        ) {
            v.value as int
        } else {
            0
        },
{
    assert(seq![v].drop_last() =~= Seq::<AspectValue>::empty());
    assert(content::aspect_sum(aspects, Seq::empty(), wanted) == 0);
}

// ---- registry ------------------------------------------------------
/// A declared bit has a mask with that bit alone.
pub proof fn bits_have_their_mask(
    reg: Seq<FlagEntry>,
    section: Seq<char>,
    name: Seq<char>,
    i: int,
)
    requires
        0 <= i < reg.len(),
        registry::declares_bit(reg[i], section, name),
        forall|j: int| 0 <= j < i ==> !registry::declares_bit(#[trigger] reg[j], section, name),
    ensures
        registry::bit_of(reg, section, name) == Some(reg[i].shape->bit),
        registry::mask_of(reg, section, name) == 1u32 << (reg[i].shape->bit),
    decreases reg.len(),
{
    if i > 0 {
        let rest = reg.skip(1);
        assert(rest[i - 1] == reg[i]);
        assert forall|j: int| 0 <= j < i - 1 implies !registry::declares_bit(
            #[trigger] rest[j],
            section,
            name,
        ) by {
            assert(rest[j] == reg[j + 1]);
        }
        bits_have_their_mask(rest, section, name, i - 1);
    }
}

/// A declared field has the mask, the shift and the greatest value of its width.
pub proof fn fields_have_their_parts(
    reg: Seq<FlagEntry>,
    section: Seq<char>,
    name: Seq<char>,
    i: int,
)
    requires
        0 <= i < reg.len(),
        registry::declares_field(reg[i], section, name),
        forall|j: int| 0 <= j < i ==> !registry::declares_field(#[trigger] reg[j], section, name),
    ensures
        registry::field_of(reg, section, name) == Some((reg[i].shape->shift, reg[i].shape->width)),
        registry::parts_of(reg, section, name).1 == reg[i].shape->shift,
        registry::parts_of(reg, section, name).0 == registry::parts_of(reg, section, name).2 << (
        reg[i].shape->shift),
    decreases reg.len(),
{
    if i > 0 {
        let rest = reg.skip(1);
        assert(rest[i - 1] == reg[i]);
        assert forall|j: int| 0 <= j < i - 1 implies !registry::declares_field(
            #[trigger] rest[j],
            section,
            name,
        ) by {
            assert(rest[j] == reg[j + 1]);
        }
        fields_have_their_parts(rest, section, name, i - 1);
    }
}

} // verus!
