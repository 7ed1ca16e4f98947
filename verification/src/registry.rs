//! The declared layout of packed flag words.
//!
//! A registry lists, per section, the single-bit flags and the multi-bit
//! fields of one host integer. Lookups are by section and name.
use vstd::prelude::*;

verus! {

/// Where a flag lives inside its host integer.
#[derive(Clone, Copy, Debug, PartialEq, Eq, Structural)]
pub enum FlagShape {
    /// A single bit at this position.
    Bit { bit: u32 },
    /// `width` bits whose lowest one is at `shift`.
    Field { shift: u32, width: u32 },
}

/// One declaration of the registry.
pub struct FlagEntry {
    pub section: String,
    pub name: String,
    pub shape: FlagShape,
}

/// `e` declares `section.name` as a single bit.
pub open spec fn declares_bit(e: FlagEntry, section: Seq<char>, name: Seq<char>) -> bool {
    e.section@ == section && e.name@ == name && e.shape is Bit
}

/// `e` declares `section.name` as a multi-bit field.
pub open spec fn declares_field(e: FlagEntry, section: Seq<char>, name: Seq<char>) -> bool {
    e.section@ == section && e.name@ == name && e.shape is Field
}

/// The bit position of the first single-bit declaration of `section.name`.
pub open spec fn bit_of(reg: Seq<FlagEntry>, section: Seq<char>, name: Seq<char>) -> Option<u32>
    decreases reg.len(),
{
    if reg.len() == 0 {
        None
    } else if declares_bit(reg[0], section, name) {
        Some(reg[0].shape->bit)
    } else {
        bit_of(reg.skip(1), section, name)
    }
}

/// The `(shift, width)` of the first multi-bit declaration of `section.name`.
pub open spec fn field_of(reg: Seq<FlagEntry>, section: Seq<char>, name: Seq<char>) -> Option<
    (u32, u32),
>
    decreases reg.len(),
{
    if reg.len() == 0 {
        None
    } else if declares_field(reg[0], section, name) {
        Some((reg[0].shape->shift, reg[0].shape->width))
    } else {
        field_of(reg.skip(1), section, name)
    }
}

/// Look up a single-bit flag.
pub fn flag_bit(reg: &Vec<FlagEntry>, section: &str, name: &str) -> (found: Option<u32>)
    ensures
        found == bit_of(reg@, section@, name@),
{
    let wanted_section: String = section.to_owned();
    let wanted_name: String = name.to_owned();
    let mut i: usize = 0;
    assert(reg@.skip(0) =~= reg@);
    while i < reg.len()
        invariant
            i <= reg.len(),
            wanted_section@ == section@,
            wanted_name@ == name@,
            bit_of(reg@, section@, name@) == bit_of(reg@.skip(i as int), section@, name@),
        decreases reg.len() - i,
    {
        assert(reg@.skip(i as int)[0] == reg@[i as int]);
        assert(reg@.skip(i as int).skip(1) =~= reg@.skip(i + 1));
        if reg[i].section == wanted_section && reg[i].name == wanted_name {
            match reg[i].shape {
                FlagShape::Bit { bit } => {
                    return Some(bit);
                },
                FlagShape::Field { .. } => {},
            }
        }
        i = i + 1;
    }
    None
}

/// Look up a multi-bit field: its `(shift, width)`.
pub fn flag_field(reg: &Vec<FlagEntry>, section: &str, name: &str) -> (found: Option<(u32, u32)>)
    ensures
        found == field_of(reg@, section@, name@),
{
    let wanted_section: String = section.to_owned();
    let wanted_name: String = name.to_owned();
    let mut i: usize = 0;
    assert(reg@.skip(0) =~= reg@);
    while i < reg.len()
        invariant
            i <= reg.len(),
            wanted_section@ == section@,
            wanted_name@ == name@,
            field_of(reg@, section@, name@) == field_of(reg@.skip(i as int), section@, name@),
        decreases reg.len() - i,
    {
        assert(reg@.skip(i as int)[0] == reg@[i as int]);
        assert(reg@.skip(i as int).skip(1) =~= reg@.skip(i + 1));
        if reg[i].section == wanted_section && reg[i].name == wanted_name {
            match reg[i].shape {
                FlagShape::Field { shift, width } => {
                    return Some((shift, width));
                },
                FlagShape::Bit { .. } => {},
            }
        }
        i = i + 1;
    }
    None
}

/// The mask of the single-bit flag `section.name`.
pub open spec fn mask_of(reg: Seq<FlagEntry>, section: Seq<char>, name: Seq<char>) -> u32 {
    1u32 << bit_of(reg, section, name)->0
}

/// `section.name` is declared as a bit of a 32-bit word.
pub open spec fn has_bit(reg: Seq<FlagEntry>, section: Seq<char>, name: Seq<char>) -> bool {
    bit_of(reg, section, name) matches Some(b) && b < 32
}

/// `section.name` is declared as a field that starts inside a 32-bit word.
pub open spec fn has_field(reg: Seq<FlagEntry>, section: Seq<char>, name: Seq<char>) -> bool {
    field_of(reg, section, name) matches Some(f) && f.0 < 32 && f.1 <= 32
}

/// Test whether `section.name` is declared as a bit of a 32-bit word.
pub fn is_bit(reg: &Vec<FlagEntry>, section: &str, name: &str) -> (ok: bool)
    ensures
        ok == has_bit(reg@, section@, name@),
{
    match flag_bit(reg, section, name) {
        Some(b) => b < 32,
        None => false,
    }
}

/// Test whether `section.name` is declared as a field that starts inside a 32-bit
/// word.
pub fn is_field(reg: &Vec<FlagEntry>, section: &str, name: &str) -> (ok: bool)
    ensures
        ok == has_field(reg@, section@, name@),
{
    match flag_field(reg, section, name) {
        Some(f) => f.0 < 32 && f.1 <= 32,
        None => false,
    }
}

/// The largest value of a field of `width` bits.
pub open spec fn field_max(width: u32) -> u32 {
    (((1u64 << width) - 1) as u64 & 0xFFFF_FFFF) as u32
}

/// The `(mask, shift, max)` triple of the field `section.name`.
pub open spec fn parts_of(reg: Seq<FlagEntry>, section: Seq<char>, name: Seq<char>) -> (
    u32,
    u32,
    u32,
) {
    let f = field_of(reg, section, name)->0;
    (field_max(f.1) << f.0, f.0, field_max(f.1))
}

/// Look up a single-bit flag and return its pre-shifted mask.
pub fn bit_mask(reg: &Vec<FlagEntry>, section: &str, name: &str) -> (mask: u32)
    requires
        has_bit(reg@, section@, name@),
    ensures
        mask == mask_of(reg@, section@, name@),
{
    let bit: u32 = flag_bit(reg, section, name).unwrap();
    1u32 << bit
}

/// Look up a multi-bit field and return `(mask, shift, max)`.
pub fn field_parts(reg: &Vec<FlagEntry>, section: &str, name: &str) -> (parts: (u32, u32, u32))
    requires
        has_field(reg@, section@, name@),
    ensures
        parts == parts_of(reg@, section@, name@),
{
    let f: (u32, u32) = flag_field(reg, section, name).unwrap();
    let width: u32 = f.1;
    assert(1u64 << width >= 1) by (bit_vector)
        requires
            width <= 32u32,
    ;
    let value_mask: u32 = (((1u64 << width) - 1) & 0xFFFF_FFFF) as u32;
    (value_mask << f.0, f.0, value_mask)
}

} // verus!
