//! Where a value's bytes are.
//!
//! Every value occupies whole 8-byte words. A scalar or a pointer takes one,
//! an `Option` or a `Result` takes two: a tag and a payload. A record is its
//! fields in order; a boxed sum is a tag word and then the fields of the
//! variant it holds, in room for the widest one.

use vstd::prelude::*;

use crate::hir::{RecordDef, SumDef, Ty};

verus! {

/// Size of a word, in bytes.
pub const WORD: u64 = 8;

/// Bytes before a string's text: its length.
pub const STR_HEADER: u64 = 4;

/// Bytes before a list's elements: its length, padded to a word.
pub const LIST_HEADER: u64 = 8;

impl Ty {
    /// How many WASM values carry a value of this type.
    pub open spec fn arity(self) -> nat {
        match self {
            Ty::Unit | Ty::Node | Ty::Never | Ty::Error => 0,
            Ty::Option(_) | Ty::Result(_, _) => 2,
            _ => 1,
        }
    }

    /// How many words a value of this type occupies in memory. A value with
    /// nothing to store still has its word.
    pub open spec fn words(self) -> nat {
        if self.arity() < 1 {
            1
        } else {
            self.arity()
        }
    }

    /// Whether a value of this type is a pointer to an object, unless it is a
    /// sum that is nothing but its tag.
    pub open spec fn boxed(self) -> bool {
        self is Str || self is List || self is Record || self is Sum
    }
}

/// How many WASM values carry a value of type `ty`.
pub fn wasm_arity(ty: &Ty) -> (r: usize)
    ensures
        r == ty.arity(),
{
    match ty {
        Ty::Unit | Ty::Node | Ty::Never | Ty::Error => 0,
        Ty::Option(_) | Ty::Result(_, _) => 2,
        _ => 1,
    }
}

/// How many words a value of type `ty` occupies in memory.
pub fn words(ty: &Ty) -> (r: u64)
    ensures
        r == ty.words(),
        1 <= r <= 2,
{
    match ty {
        Ty::Option(_) | Ty::Result(_, _) => 2,
        _ => 1,
    }
}

/// The distance between two neighbouring elements of a list of `ty`.
pub fn stride(ty: &Ty) -> (r: u64)
    ensures
        r == ty.words() * WORD,
        8 <= r <= 16,
{
    words(ty) * WORD
}

/// Where the field at `index` starts, from the start of the first.
pub open spec fn offset_of(fields: Seq<(String, Ty)>, index: nat) -> nat
    decreases index,
{
    if index == 0 || index > fields.len() {
        0
    } else {
        offset_of(fields, (index - 1) as nat) + fields[index - 1].1.words() * WORD as nat
    }
}

/// Offsets are whole words and grow by at most two words per field.
pub(crate) proof fn lemma_offset(fields: Seq<(String, Ty)>, index: nat)
    requires
        index <= fields.len(),
    ensures
        offset_of(fields, index) % 8 == 0,
        index * 8 <= offset_of(fields, index) <= index * 16,
    decreases index,
{
    if index > 0 {
        lemma_offset(fields, (index - 1) as nat);
        let before = offset_of(fields, (index - 1) as nat);
        let step = fields[index - 1].1.words() * WORD as nat;
        assert(step == 8 || step == 16);
        assert(offset_of(fields, index) == before + step);
        assert((before + step) % 8 == 0);
    }
}

/// A later field starts after an earlier one has ended.
pub(crate) proof fn lemma_offset_order(fields: Seq<(String, Ty)>, a: nat, b: nat)
    requires
        a < b <= fields.len(),
    ensures
        offset_of(fields, a) + fields[a as int].1.words() * WORD <= offset_of(fields, b),
    decreases b,
{
    if a + 1 < b {
        lemma_offset_order(fields, a, (b - 1) as nat);
    }
}

/// Where the field at `index` starts, from the start of the first.
pub fn field_offset(fields: &Vec<(String, Ty)>, index: usize) -> (r: u64)
    requires
        index <= fields@.len() < 0x1_0000_0000,
    ensures
        r == offset_of(fields@, index as nat),
        r <= index * 16,
{
    let mut offset: u64 = 0;
    for i in 0..index
        invariant
            index <= fields@.len() < 0x1_0000_0000,
            offset == offset_of(fields@, i as nat),
            offset <= i * 16,
    {
        proof {
            lemma_offset(fields@, i as nat);
        }
        offset = offset + words(&fields[i].1) * WORD;
    }
    offset
}

/// The bytes a record's fields take.
pub fn record_size(def: &RecordDef) -> (r: u64)
    requires
        def.fields@.len() < 0x1_0000_0000,
    ensures
        r == offset_of(def.fields@, def.fields@.len()),
        r <= def.fields@.len() * 16,
{
    field_offset(&def.fields, def.fields.len())
}

impl SumDef {
    /// Whether no variant carries anything, so that a value is its tag.
    pub open spec fn bare(self) -> bool {
        forall|i: int|
            0 <= i < self.variants@.len() ==> (#[trigger] self.variants@[i]).fields@.len() == 0
    }

    /// The bytes of the widest of the first `count` variants.
    pub open spec fn widest(self, count: nat) -> nat
        decreases count,
    {
        if count == 0 || count > self.variants@.len() {
            0
        } else {
            let here = self.variants@[count - 1].fields@;
            let size = offset_of(here, here.len());
            let before = self.widest((count - 1) as nat);
            if size > before {
                size
            } else {
                before
            }
        }
    }

    /// The bytes of a boxed value: the tag word and room for any variant.
    pub open spec fn size(self) -> nat {
        WORD as nat + self.widest(self.variants@.len())
    }
}

/// Every variant fits in the room for the widest.
pub(crate) proof fn lemma_widest(def: SumDef, count: nat, index: nat)
    requires
        index < count <= def.variants@.len(),
    ensures
        ({
            let fields = def.variants@[index as int].fields@;
            offset_of(fields, fields.len()) <= def.widest(count)
        }),
    decreases count,
{
    if index + 1 < count {
        lemma_widest(def, (count - 1) as nat, index);
    }
}

/// Whether no variant carries anything, so that a value is its tag.
pub fn is_bare_tag(def: &SumDef) -> (r: bool)
    ensures
        r == def.bare(),
{
    for i in 0..def.variants.len()
        invariant
            forall|j: int| 0 <= j < i ==> (#[trigger] def.variants@[j]).fields@.len() == 0,
    {
        if def.variants[i].fields.len() != 0 {
            return false;
        }
    }
    true
}

/// The bytes of a boxed value of this sum, whichever variant it holds.
pub fn boxed_sum_size(def: &SumDef) -> (r: u64)
    requires
        forall|i: int|
            0 <= i < def.variants@.len() ==> (#[trigger] def.variants@[i]).fields@.len()
                < 0x1_0000_0000,
    ensures
        r == def.size(),
        r <= 8 + 16 * 0x1_0000_0000,
{
    let mut widest: u64 = 0;
    for i in 0..def.variants.len()
        invariant
            forall|i: int|
                0 <= i < def.variants@.len() ==> (#[trigger] def.variants@[i]).fields@.len()
                    < 0x1_0000_0000,
            widest == def.widest(i as nat),
            widest <= 16 * 0x1_0000_0000,
    {
        let fields = &def.variants[i].fields;
        let size: u64 = field_offset(fields, fields.len());
        if size > widest {
            widest = size;
        }
    }
    WORD + widest
}

/// Whether a value of type `ty` is a pointer to an object, unless it is a sum
/// that is nothing but its tag.
pub fn is_boxed(ty: &Ty) -> (r: bool)
    ensures
        r == ty.boxed(),
{
    match ty {
        Ty::Str | Ty::List(_) | Ty::Record(_) | Ty::Sum(_) => true,
        _ => false,
    }
}

/// A value takes a word, or two where it has a tag and a payload, and each field
/// starts where the one before it ends.
pub proof fn every_field_starts_where_the_last_one_ends(fields: Seq<(String, Ty)>, index: nat)
    requires
        index < fields.len(),
    ensures
        ({
            let ty = fields[index as int].1;
            let room = if ty is Option || ty is Result {
                16int
            } else {
                8int
            };
            &&& offset_of(fields, 0) == 0
            &&& offset_of(fields, index + 1) == offset_of(fields, index) + room
            &&& ty.words() * 8 == room
        }),
{
}

/// A boxed sum has its tag and room for the widest of its variants, and no more.
pub proof fn a_sum_has_room_for_its_widest(def: SumDef, index: nat)
    requires
        index < def.variants@.len(),
    ensures
        ({
            let fields = def.variants@[index as int].fields@;
            8 + offset_of(fields, fields.len()) <= def.size()
        }),
        exists|v: int|
            0 <= v < def.variants@.len() && def.size() == 8 + offset_of(
                (#[trigger] def.variants@[v]).fields@,
                def.variants@[v].fields@.len(),
            ),
{
    lemma_widest(def, def.variants@.len(), index);
    lemma_widest_is_one(def, def.variants@.len());
}

proof fn lemma_widest_is_one(def: SumDef, count: nat)
    requires
        0 < count <= def.variants@.len(),
    ensures
        exists|v: int|
            0 <= v < count && def.widest(count) == offset_of(
                (#[trigger] def.variants@[v]).fields@,
                def.variants@[v].fields@.len(),
            ),
    decreases count,
{
    let last = def.variants@[count - 1].fields@;
    if count == 1 {
        assert(def.widest(0) == 0);
        assert(def.widest(1) == offset_of(last, last.len()));
    } else {
        lemma_widest_is_one(def, (count - 1) as nat);
    }
}

/// A string, a list, a record and a sum are behind a pointer, unless the sum is
/// nothing but its tag; a sum is that exactly where no variant carries anything.
pub proof fn what_is_behind_a_pointer(ty: Ty, def: SumDef)
    ensures
        ty.boxed() <==> ty is Str || ty is List || ty is Record || ty is Sum,
        def.bare() <==> forall|v: int|
            0 <= v < def.variants@.len() ==> (#[trigger] def.variants@[v]).fields@.len() == 0,
        ty.arity() == 0 <==> ty is Unit || ty is Node || ty is Never || ty is Error,
        ty.arity() == 2 <==> ty is Option || ty is Result,
        ty.arity() <= 2,
{
}

} // verus!
