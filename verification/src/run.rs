//! Rendering what a compiled program returned.
//!
//! Decoding is driven by the types, so this doubles as a readable check on the
//! layout: if a record's fields print correctly, their offsets are right; if
//! `Ok(2.5)` prints as `Ok(2.5)`, the payload slot round-tripped.
//!
//! Floats are left as bits in the rendering, for the platform to print.

use vstd::prelude::*;
use vstd::slice::slice_subrange;
use vstd::string::StringExecFns;

use crate::bytes::{
    bytes32, le32, le64, lemma_bytes32, lemma_le32_congruent, pattern64, read_u32, read_u64,
    signed32, signed64,
    to_pattern32, to_pattern64, to_signed32, to_signed64,
};
use crate::encode::{
    a_message_carries_its_fields, a_message_carries_the_variant_it_names, message_bytes,
};
use crate::hir::{fields_known, FuncDef, Hir, RecordId, SumId, Ty};
use crate::layout::{field_offset, is_bare_tag, lemma_offset, offset_of, WORD};
use crate::text::{
    address, debug_text, decimal, hexadecimal, lossy, lossy_text, number, quoted, same_text,
    signed_number,
};
use crate::val::Val;
use crate::words::{a_number_survives_being_written, int_in, letters, words_in};

verus! {

/// Why `main` cannot be run.
#[derive(Debug, Clone, Copy, PartialEq, Eq, Structural)]
pub enum MainError {
    /// The program has no `main`.
    NoMain,
    /// `main` takes parameters.
    TakesParameters,
}

impl MainError {
    /// The error in words.
    pub open spec fn words(self) -> Seq<char> {
        match self {
            MainError::NoMain => "this program has no `main` function"@,
            MainError::TakesParameters => "`main` must take no parameters"@,
        }
    }

    /// The error in words.
    pub fn message(&self) -> (r: String)
        ensures
            r@ == self.words(),
    {
        match self {
            MainError::NoMain => "this program has no `main` function".to_owned(),
            MainError::TakesParameters => "`main` must take no parameters".to_owned(),
        }
    }
}

/// The first of the functions from `index` on with this name.
pub open spec fn func_named(funcs: Seq<FuncDef>, name: Seq<char>, index: nat) -> Option<nat>
    decreases funcs.len() - index,
{
    if index >= funcs.len() {
        None
    } else if funcs[index as int].name@ == name {
        Some(index)
    } else {
        func_named(funcs, name, index + 1)
    }
}

/// The function a program is run by.
pub fn find_main(hir: &Hir) -> (r: Result<&FuncDef, MainError>)
    ensures
        match (r, func_named(hir.funcs@, "main"@, 0)) {
            (Ok(func), Some(index)) => *func == hir.funcs@[index as int] && func.param_count == 0,
            (Err(MainError::NoMain), None) => true,
            (Err(MainError::TakesParameters), Some(index)) => hir.funcs@[index as int].param_count
                != 0,
            _ => false,
        },
{
    for i in 0..hir.funcs.len()
        invariant
            func_named(hir.funcs@, "main"@, 0) == func_named(hir.funcs@, "main"@, i as nat),
    {
        if same_text(hir.funcs[i].name.as_str(), "main") {
            if hir.funcs[i].param_count != 0 {
                return Err(MainError::TakesParameters);
            }
            return Ok(&hir.funcs[i]);
        }
    }
    Err(MainError::NoMain)
}

/// A part of a rendering: a character, or a float by its bits.
#[derive(Debug, Clone, Copy, PartialEq, Eq, Structural)]
pub enum Glyph {
    Char(char),
    Float(u64),
}

/// A character, as a part of a rendering.
pub open spec fn letter(c: char) -> Glyph {
    Glyph::Char(c)
}

/// A text, as a rendering.
pub open spec fn glyphs(text: Seq<char>) -> Seq<Glyph> {
    Seq::new(text.len(), |i: int| letter(text[i]))
}

/// An address, as the machine widens the number that carries it.
pub open spec fn widened(value: i32) -> nat {
    if value >= 0 {
        value as nat
    } else {
        (value + 0x1_0000_0000_0000_0000) as nat
    }
}

fn widen(value: i32) -> (r: u64)
    ensures
        r == widened(value),
{
    if value >= 0 {
        value as u64
    } else {
        to_pattern32(value) as u64 + 0xffff_ffff_0000_0000
    }
}

/// The 32-bit number at `at`, if all of it is inside.
pub open spec fn u32_at(memory: Seq<u8>, at: nat) -> Option<u32> {
    if at + 4 <= memory.len() {
        Some(le32(memory, at as int))
    } else {
        None
    }
}

/// The signed 64-bit number at `at`, if all of it is inside.
pub open spec fn i64_at(memory: Seq<u8>, at: nat) -> Option<i64> {
    if at + 8 <= memory.len() {
        Some(signed64(le64(memory, at as int)))
    } else {
        None
    }
}

fn read_i64(memory: &[u8], at: u64) -> (r: Option<i64>)
    ensures
        r == i64_at(memory@, at as nat),
{
    match read_u64(memory, at) {
        Some(pattern) => Some(to_signed64(pattern)),
        None => None,
    }
}

/// The string at `ptr`, quoted.
pub open spec fn string_shown(memory: Seq<u8>, ptr: nat) -> Seq<char> {
    match u32_at(memory, ptr) {
        None => "<bad string pointer>"@,
        Some(len) => if ptr + 4 + len <= memory.len() {
            debug_text(lossy_text(memory.subrange(ptr as int + 4, ptr as int + 4 + len)))
        } else {
            "<bad string>"@
        },
    }
}

fn render_string(ptr: u64, memory: &[u8]) -> (r: String)
    ensures
        r@ == string_shown(memory@, ptr as nat),
{
    let total: u64 = memory.len() as u64;
    let len: u32 = match read_u32(memory, ptr) {
        Some(len) => len,
        None => {
            return "<bad string pointer>".to_owned();
        },
    };
    let start: u64 = ptr + 4;
    let left: u64 = total - start;
    if len as u64 > left {
        return "<bad string>".to_owned();
    }
    let end: usize = start as usize + len as usize;
    quoted(lossy(slice_subrange(memory, start as usize, end)).as_str())
}

/// The value a payload slot holds, widened back into one of type `ty`.
pub open spec fn payload_value(ty: Ty, payload: i64) -> Val {
    match ty {
        Ty::Int => Val::I64(payload),
        Ty::Float => Val::F64(pattern64(payload)),
        _ => Val::I32(signed32((pattern64(payload) % 0x1_0000_0000) as u32)),
    }
}

/// `name(inner)`, where the inner rendering is one.
pub open spec fn wrapped(name: Seq<char>, inner: Option<Seq<Glyph>>) -> Option<Seq<Glyph>> {
    match inner {
        Some(inner) => Some(glyphs(name + "("@) + inner + glyphs(")"@)),
        None => None,
    }
}

/// A returned value, by its static type. `None` says that it takes more than
/// `depth` pointers to follow, or that the values are not of the type.
pub open spec fn shown(hir: Hir, ty: Ty, values: Seq<Val>, memory: Seq<u8>, depth: nat) -> Option<
    Seq<Glyph>,
>
    decreases depth, ty, 2nat,
{
    match ty {
        Ty::Unit => Some(glyphs("()"@)),
        Ty::Node => Some(glyphs("<node>"@)),
        Ty::Never | Ty::Error => Some(glyphs("<unknown>"@)),
        Ty::Int => if values.len() > 0 && values[0] is I64 {
            Some(glyphs(decimal(values[0]->I64_0 as int)))
        } else {
            None
        },
        Ty::Float => if values.len() > 0 && values[0] is F64 {
            Some(seq![Glyph::Float(values[0]->F64_0)])
        } else {
            None
        },
        Ty::Bool => if values.len() > 0 && values[0] is I32 {
            Some(glyphs(truth(values[0]->I32_0 != 0)))
        } else {
            None
        },
        Ty::Str => if values.len() > 0 && values[0] is I32 {
            Some(glyphs(string_shown(memory, widened(values[0]->I32_0))))
        } else {
            None
        },
        Ty::Record(_) | Ty::Sum(_) | Ty::List(_) => if values.len() > 0 && values[0] is I32 {
            pointer_shown(hir, ty, widened(values[0]->I32_0), memory, depth)
        } else {
            None
        },
        Ty::Option(inner) => if values.len() > 1 && values[0] is I32 && values[1] is I64 {
            if values[0]->I32_0 == 0 {
                wrapped("Some"@, payload_shown(hir, *inner, values[1]->I64_0, memory, depth))
            } else {
                Some(glyphs("None"@))
            }
        } else {
            None
        },
        Ty::Result(ok, err) => if values.len() > 1 && values[0] is I32 && values[1] is I64 {
            if values[0]->I32_0 == 0 {
                wrapped("Ok"@, payload_shown(hir, *ok, values[1]->I64_0, memory, depth))
            } else {
                wrapped("Err"@, payload_shown(hir, *err, values[1]->I64_0, memory, depth))
            }
        } else {
            None
        },
    }
}

/// `true` or `false`.
pub open spec fn truth(value: bool) -> Seq<char> {
    if value {
        "true"@
    } else {
        "false"@
    }
}

/// What a payload slot holds.
pub open spec fn payload_shown(
    hir: Hir,
    ty: Ty,
    payload: i64,
    memory: Seq<u8>,
    depth: nat,
) -> Option<Seq<Glyph>>
    decreases depth, ty, 3nat,
{
    shown(hir, ty, seq![payload_value(ty, payload)], memory, depth)
}

/// What a pointer leads to.
pub open spec fn pointer_shown(
    hir: Hir,
    ty: Ty,
    ptr: nat,
    memory: Seq<u8>,
    depth: nat,
) -> Option<Seq<Glyph>>
    decreases depth, ty, 1nat,
{
    match ty {
        Ty::Record(id) => if depth == 0 {
            None
        } else {
            let def = hir.records@[id.0 as int];
            match parts_shown(
                hir,
                def.fields@,
                def.fields@.len(),
                ptr,
                memory,
                (depth - 1) as nat,
            ) {
                Some(inner) => Some(glyphs(def.name@ + " { "@) + inner + glyphs(" }"@)),
                None => None,
            }
        },
        Ty::Sum(id) => {
            let def = hir.sums@[id.0 as int];
            // A sum whose variants carry nothing is the tag itself.
            let index = if def.bare() {
                (ptr % 0x1_0000_0000) as u32
            } else {
                match u32_at(memory, ptr) {
                    Some(tag) => tag,
                    None => 0,
                }
            };
            if index >= def.variants@.len() {
                Some(glyphs("<bad variant>"@))
            } else {
                let variant = def.variants@[index as int];
                if variant.fields@.len() == 0 {
                    Some(glyphs(variant.name@))
                } else if depth == 0 {
                    None
                } else {
                    match parts_shown(
                        hir,
                        variant.fields@,
                        variant.fields@.len(),
                        ptr + WORD as nat,
                        memory,
                        (depth - 1) as nat,
                    ) {
                        Some(inner) => Some(glyphs(variant.name@ + "("@) + inner + glyphs(")"@)),
                        None => None,
                    }
                }
            }
        },
        _ => Some(glyphs("<"@ + hexadecimal(ptr) + ">"@)),
    }
}

/// The first `count` fields of an object whose fields start at `start`, each
/// as `name: value`.
pub open spec fn parts_shown(
    hir: Hir,
    fields: Seq<(String, Ty)>,
    count: nat,
    start: nat,
    memory: Seq<u8>,
    depth: nat,
) -> Option<Seq<Glyph>>
    decreases depth, fields, count,
{
    if count == 0 || count > fields.len() {
        Some(Seq::empty())
    } else {
        let (name, ty) = fields[count - 1];
        let at = start + offset_of(fields, (count - 1) as nat);
        match (
            parts_shown(hir, fields, (count - 1) as nat, start, memory, depth),
            field_shown(hir, ty, at, memory, depth),
        ) {
            (Some(before), Some(value)) => Some(
                before + (if count > 1 {
                    glyphs(", "@)
                } else {
                    Seq::empty()
                }) + glyphs(name@ + ": "@) + value,
            ),
            _ => None,
        }
    }
}

/// What a field at `at` holds.
pub open spec fn field_shown(hir: Hir, ty: Ty, at: nat, memory: Seq<u8>, depth: nat) -> Option<
    Seq<Glyph>,
>
    decreases depth, ty, 4nat,
{
    let out = Some(glyphs("<oob>"@));
    match ty {
        Ty::Node => Some(glyphs("<node>"@)),
        Ty::Unit => Some(glyphs("()"@)),
        Ty::Never | Ty::Error => Some(glyphs("<unknown>"@)),
        Ty::Int => match i64_at(memory, at) {
            Some(value) => Some(glyphs(decimal(value as int))),
            None => out,
        },
        Ty::Float => match i64_at(memory, at) {
            Some(value) => Some(seq![Glyph::Float(pattern64(value))]),
            None => out,
        },
        Ty::Bool => match u32_at(memory, at) {
            Some(value) => Some(glyphs(truth(value != 0))),
            None => out,
        },
        Ty::Str => match u32_at(memory, at) {
            Some(ptr) => Some(glyphs(string_shown(memory, ptr as nat))),
            None => out,
        },
        Ty::Record(_) | Ty::Sum(_) | Ty::List(_) => match u32_at(memory, at) {
            Some(ptr) => pointer_shown(hir, ty, ptr as nat, memory, depth),
            None => out,
        },
        Ty::Option(inner) => match (u32_at(memory, at), i64_at(memory, at + WORD as nat)) {
            (Some(tag), Some(payload)) => if tag == 0 {
                wrapped("Some"@, payload_shown(hir, *inner, payload, memory, depth))
            } else {
                Some(glyphs("None"@))
            },
            (Some(_), None) => Some(glyphs("None"@)),
            _ => out,
        },
        Ty::Result(ok, err) => match (u32_at(memory, at), i64_at(memory, at + WORD as nat)) {
            (Some(tag), Some(payload)) => if tag == 0 {
                wrapped("Ok"@, payload_shown(hir, *ok, payload, memory, depth))
            } else {
                wrapped("Err"@, payload_shown(hir, *err, payload, memory, depth))
            },
            _ => out,
        },
    }
}

fn push_letter(out: &mut Vec<Glyph>, c: char)
    ensures
        final(out)@ == old(out)@.push(letter(c)),
{
    out.push(Glyph::Char(c));
}

fn push_text(out: &mut Vec<Glyph>, text: &str)
    ensures
        final(out)@ == old(out)@ + glyphs(text@),
{
    let ghost before = out@;
    let letters = letters(text);
    assert(out@ =~= before + glyphs(text@.take(0)));
    for i in 0..letters.len()
        invariant
            letters@ == text@,
            out@ == before + glyphs(text@.take(i as int)),
    {
        push_letter(out, letters[i]);
        assert(glyphs(text@.take(i + 1)) =~= glyphs(text@.take(i as int)).push(
            letter(text@[i as int]),
        ));
        assert(out@ =~= before + glyphs(text@.take(i + 1)));
    }
    assert(text@.take(text@.len() as int) =~= text@);
    assert(out@ =~= before + glyphs(text@));
}

fn push_named(out: &mut Vec<Glyph>, name: &str, after: &str)
    ensures
        final(out)@ == old(out)@ + glyphs(name@ + after@),
{
    push_text(out, name);
    push_text(out, after);
    assert(out@ =~= old(out)@ + glyphs(name@ + after@));
}

/// Renders a returned value using its static type.
///
/// The values are those the type is carried by, and no pointer leads round in
/// a circle: data is immutable and has no back-references.
pub fn render(hir: &Hir, ty: &Ty, values: &Vec<Val>, memory: &[u8]) -> (r: Vec<Glyph>)
    requires
        hir.valid(),
        ty.known(*hir),
        exists|depth: nat| #[trigger] shown(*hir, *ty, values@, memory@, depth) is Some,
    ensures
        forall|depth: nat| #[trigger]
            shown(*hir, *ty, values@, memory@, depth) is Some ==> shown(
                *hir,
                *ty,
                values@,
                memory@,
                depth,
            ) == Some(r@),
{
    let ghost depth = choose|depth: nat| #[trigger]
        shown(*hir, *ty, values@, memory@, depth) is Some;
    let mut out: Vec<Glyph> = Vec::new();
    push_value(hir, ty, values, memory, &mut out, Ghost(depth));
    proof {
        assert(out@ =~= shown(*hir, *ty, values@, memory@, depth)->Some_0);
        assert forall|other: nat| #[trigger]
            shown(*hir, *ty, values@, memory@, other) is Some implies shown(
            *hir,
            *ty,
            values@,
            memory@,
            other,
        ) == Some(out@) by {
            if depth <= other {
                lemma_deeper(*hir, *ty, values@, memory@, depth, other);
            } else {
                lemma_deeper(*hir, *ty, values@, memory@, other, depth);
            }
        }
    }
    out
}

fn push_value(
    hir: &Hir,
    ty: &Ty,
    values: &Vec<Val>,
    memory: &[u8],
    out: &mut Vec<Glyph>,
    Ghost(depth): Ghost<nat>,
)
    requires
        hir.valid(),
        ty.known(*hir),
        shown(*hir, *ty, values@, memory@, depth) is Some,
    ensures
        final(out)@ == old(out)@ + shown(*hir, *ty, values@, memory@, depth)->Some_0,
    decreases depth, ty, 2nat,
{
    match ty {
        Ty::Unit => push_text(out, "()"),
        // A node was drawn, not returned: the frame's array holds it.
        Ty::Node => push_text(out, "<node>"),
        Ty::Never | Ty::Error => push_text(out, "<unknown>"),
        Ty::Int => push_text(out, signed_number(values[0].unwrap_i64()).as_str()),
        Ty::Float => {
            out.push(Glyph::Float(values[0].unwrap_f64_bits()));
            assert(out@ =~= old(out)@ + shown(*hir, *ty, values@, memory@, depth)->Some_0);
        },
        Ty::Bool => push_truth(out, values[0].unwrap_i32() != 0),
        Ty::Str => push_text(out, render_string(widen(values[0].unwrap_i32()), memory).as_str()),
        Ty::Record(_) | Ty::Sum(_) | Ty::List(_) => push_pointer(
            hir,
            ty,
            widen(values[0].unwrap_i32()),
            memory,
            out,
            Ghost(depth),
        ),
        Ty::Option(inner) => {
            let payload: i64 = values[1].unwrap_i64();
            if values[0].unwrap_i32() == 0 {
                push_wrapped(hir, "Some", inner, payload, memory, out, Ghost(depth));
            } else {
                push_text(out, "None");
            }
        },
        Ty::Result(ok, err) => {
            let payload: i64 = values[1].unwrap_i64();
            if values[0].unwrap_i32() == 0 {
                push_wrapped(hir, "Ok", ok, payload, memory, out, Ghost(depth));
            } else {
                push_wrapped(hir, "Err", err, payload, memory, out, Ghost(depth));
            }
        },
    }
}

fn push_truth(out: &mut Vec<Glyph>, value: bool)
    ensures
        final(out)@ == old(out)@ + glyphs(truth(value)),
{
    if value {
        push_text(out, "true");
    } else {
        push_text(out, "false");
    }
}

/// Widens the single payload slot back into a value of `ty`, inside a name and
/// brackets.
fn push_wrapped(
    hir: &Hir,
    name: &str,
    ty: &Ty,
    payload: i64,
    memory: &[u8],
    out: &mut Vec<Glyph>,
    Ghost(depth): Ghost<nat>,
)
    requires
        hir.valid(),
        ty.known(*hir),
        payload_shown(*hir, *ty, payload, memory@, depth) is Some,
    ensures
        final(out)@ == old(out)@ + wrapped(
            name@,
            payload_shown(*hir, *ty, payload, memory@, depth),
        )->Some_0,
    decreases depth, ty, 3nat,
{
    let value: Val = match ty {
        Ty::Int => Val::I64(payload),
        Ty::Float => Val::F64(to_pattern64(payload)),
        _ => Val::I32(to_signed32((to_pattern64(payload) % 0x1_0000_0000) as u32)),
    };
    let values = vec![value];
    assert(values@ =~= seq![payload_value(*ty, payload)]);
    push_named(out, name, "(");
    push_value(hir, ty, &values, memory, out, Ghost(depth));
    push_text(out, ")");
    assert(out@ =~= old(out)@ + wrapped(
        name@,
        payload_shown(*hir, *ty, payload, memory@, depth),
    )->Some_0);
}

fn push_pointer(
    hir: &Hir,
    ty: &Ty,
    ptr: u64,
    memory: &[u8],
    out: &mut Vec<Glyph>,
    Ghost(depth): Ghost<nat>,
)
    requires
        hir.valid(),
        ty.known(*hir),
        pointer_shown(*hir, *ty, ptr as nat, memory@, depth) is Some,
    ensures
        final(out)@ == old(out)@ + pointer_shown(
            *hir,
            *ty,
            ptr as nat,
            memory@,
            depth,
        )->Some_0,
    decreases depth, ty, 1nat,
{
    match ty {
        Ty::Record(id) => {
            let def = &hir.records[id.0 as usize];
            push_named(out, def.name.as_str(), " { ");
            push_parts(
                hir,
                &def.fields,
                ptr,
                0,
                memory,
                out,
                Ghost((depth - 1) as nat),
            );
            push_text(out, " }");
            assert(out@ =~= old(out)@ + pointer_shown(
                *hir,
                *ty,
                ptr as nat,
                memory@,
                depth,
            )->Some_0);
        },
        Ty::Sum(id) => {
            let def = &hir.sums[id.0 as usize];
            assert(hir.sums@[id.0 as int].known(*hir));
            let index: u32 = if is_bare_tag(def) {
                (ptr % 0x1_0000_0000) as u32
            } else {
                match read_u32(memory, ptr) {
                    Some(tag) => tag,
                    None => 0,
                }
            };
            if index as usize >= def.variants.len() {
                push_text(out, "<bad variant>");
                return ;
            }
            let variant = &def.variants[index as usize];
            if variant.fields.len() == 0 {
                push_text(out, variant.name.as_str());
                return ;
            }
            push_named(out, variant.name.as_str(), "(");
            push_parts(
                hir,
                &variant.fields,
                ptr,
                WORD,
                memory,
                out,
                Ghost((depth - 1) as nat),
            );
            push_text(out, ")");
            assert(out@ =~= old(out)@ + pointer_shown(
                *hir,
                *ty,
                ptr as nat,
                memory@,
                depth,
            )->Some_0);
        },
        _ => {
            let mut text = "<".to_owned();
            text.append(address(ptr).as_str());
            text.append(">");
            push_text(out, text.as_str());
        },
    }
}

/// `ptr + offset`, or the last address where there is none so high: nothing
/// can be read at either.
fn beyond(ptr: u64, offset: u64, memory: &[u8]) -> (r: u64)
    ensures
        r == ptr + offset || (r == u64::MAX && ptr + offset > u64::MAX),
        ptr + offset > u64::MAX ==> r > memory@.len() || memory@.len() == u64::MAX,
{
    assert(memory.len() <= usize::MAX);
    if ptr <= u64::MAX - offset {
        ptr + offset
    } else {
        u64::MAX
    }
}

fn push_parts(
    hir: &Hir,
    fields: &Vec<(String, Ty)>,
    ptr: u64,
    start: u64,
    memory: &[u8],
    out: &mut Vec<Glyph>,
    Ghost(depth): Ghost<nat>,
)
    requires
        hir.valid(),
        fields_known(fields@, *hir),
        start <= 8,
        parts_shown(
            *hir,
            fields@,
            fields@.len(),
            (ptr + start) as nat,
            memory@,
            depth,
        ) is Some,
    ensures
        final(out)@ == old(out)@ + parts_shown(
            *hir,
            fields@,
            fields@.len(),
            (ptr + start) as nat,
            memory@,
            depth,
        )->Some_0,
    decreases depth, fields, 0nat,
{
    let ghost before = out@;
    let ghost base = (ptr + start) as nat;
    assert(out@ =~= before + parts_shown(*hir, fields@, 0, base, memory@, depth)->Some_0);
    for i in 0..fields.len()
        invariant
            hir.valid(),
            fields_known(fields@, *hir),
            start <= 8,
            base == ptr + start,
            parts_shown(*hir, fields@, fields@.len(), base, memory@, depth) is Some,
            parts_shown(*hir, fields@, i as nat, base, memory@, depth) is Some,
            out@ == before + parts_shown(*hir, fields@, i as nat, base, memory@, depth)->Some_0,
    {
        let (name, ty) = &fields[i];
        assert(fields@[i as int].1.known(*hir));
        proof {
            lemma_parts_prefix(
                *hir,
                fields@,
                (i + 1) as nat,
                fields@.len(),
                base,
                memory@,
                depth,
            );
            lemma_offset(fields@, i as nat);
        }
        let offset: u64 = start + field_offset(fields, i);
        let at: u64 = beyond(ptr, offset, memory);
        if i > 0 {
            push_text(out, ", ");
        }
        push_named(out, name.as_str(), ": ");
        proof {
            lemma_far(*hir, *ty, (ptr + offset) as nat, at as nat, memory@, depth);
            assert(decreases_to!(*fields => fields[i as int]));
        }
        push_field(hir, ty, at, memory, out, Ghost(depth));
        assert(out@ =~= before + parts_shown(
            *hir,
            fields@,
            (i + 1) as nat,
            base,
            memory@,
            depth,
        )->Some_0);
    }
}

/// Fields that cannot be read are shown alike, however far out they are.
proof fn lemma_far(hir: Hir, ty: Ty, a: nat, b: nat, memory: Seq<u8>, depth: nat)
    requires
        a == b || (a + 4 > memory.len() && b + 4 > memory.len()),
    ensures
        field_shown(hir, ty, a, memory, depth) == field_shown(hir, ty, b, memory, depth),
{
}

proof fn lemma_parts_prefix(
    hir: Hir,
    fields: Seq<(String, Ty)>,
    count: nat,
    total: nat,
    start: nat,
    memory: Seq<u8>,
    depth: nat,
)
    requires
        count <= total <= fields.len(),
        parts_shown(hir, fields, total, start, memory, depth) is Some,
    ensures
        parts_shown(hir, fields, count, start, memory, depth) is Some,
    decreases total,
{
    if count < total {
        lemma_parts_prefix(hir, fields, count, (total - 1) as nat, start, memory, depth);
    }
}

fn push_field(
    hir: &Hir,
    ty: &Ty,
    at: u64,
    memory: &[u8],
    out: &mut Vec<Glyph>,
    Ghost(depth): Ghost<nat>,
)
    requires
        hir.valid(),
        ty.known(*hir),
        field_shown(*hir, *ty, at as nat, memory@, depth) is Some,
    ensures
        final(out)@ == old(out)@ + field_shown(*hir, *ty, at as nat, memory@, depth)->Some_0,
    decreases depth, ty, 4nat,
{
    match ty {
        // Unrepresentable as a field: the type checker rejects a record that holds
        // one, so this arm exists only to keep the match total.
        Ty::Node => push_text(out, "<node>"),
        Ty::Unit => push_text(out, "()"),
        Ty::Never | Ty::Error => push_text(out, "<unknown>"),
        Ty::Int => match read_i64(memory, at) {
            Some(value) => push_text(out, signed_number(value).as_str()),
            None => push_text(out, "<oob>"),
        },
        Ty::Float => match read_i64(memory, at) {
            Some(value) => {
                out.push(Glyph::Float(to_pattern64(value)));
                assert(out@ =~= old(out)@ + field_shown(
                    *hir,
                    *ty,
                    at as nat,
                    memory@,
                    depth,
                )->Some_0);
            },
            None => push_text(out, "<oob>"),
        },
        Ty::Bool => match read_u32(memory, at) {
            Some(value) => push_truth(out, value != 0),
            None => push_text(out, "<oob>"),
        },
        Ty::Str => match read_u32(memory, at) {
            Some(ptr) => push_text(out, render_string(ptr as u64, memory).as_str()),
            None => push_text(out, "<oob>"),
        },
        Ty::Record(_) | Ty::Sum(_) | Ty::List(_) => match read_u32(memory, at) {
            Some(ptr) => push_pointer(hir, ty, ptr as u64, memory, out, Ghost(depth)),
            None => push_text(out, "<oob>"),
        },
        Ty::Option(inner) => {
            let tag = read_u32(memory, at);
            let next: u64 = beyond(at, WORD, memory);
            match (tag, read_i64(memory, next)) {
                (Some(tag), Some(payload)) => if tag == 0 {
                    push_wrapped(hir, "Some", inner, payload, memory, out, Ghost(depth));
                } else {
                    push_text(out, "None");
                },
                (Some(_), None) => push_text(out, "None"),
                _ => push_text(out, "<oob>"),
            }
        },
        Ty::Result(ok, err) => {
            let tag = read_u32(memory, at);
            let next: u64 = beyond(at, WORD, memory);
            match (tag, read_i64(memory, next)) {
                (Some(tag), Some(payload)) => if tag == 0 {
                    push_wrapped(hir, "Ok", ok, payload, memory, out, Ghost(depth));
                } else {
                    push_wrapped(hir, "Err", err, payload, memory, out, Ghost(depth));
                },
                _ => push_text(out, "<oob>"),
            }
        },
    }
}

/// What can be shown following `less` pointers is shown the same following
/// more.
proof fn lemma_deeper(hir: Hir, ty: Ty, values: Seq<Val>, memory: Seq<u8>, less: nat, more: nat)
    requires
        less <= more,
        shown(hir, ty, values, memory, less) is Some,
    ensures
        shown(hir, ty, values, memory, more) == shown(hir, ty, values, memory, less),
    decreases less, ty, 2nat,
{
    match ty {
        Ty::Record(_) | Ty::Sum(_) | Ty::List(_) => {
            lemma_pointer_deeper(hir, ty, widened(values[0]->I32_0), memory, less, more);
        },
        Ty::Option(inner) => {
            if values[0]->I32_0 == 0 {
                let payload = seq![payload_value(*inner, values[1]->I64_0)];
                lemma_deeper(hir, *inner, payload, memory, less, more);
            }
        },
        Ty::Result(ok, err) => {
            if values[0]->I32_0 == 0 {
                let payload = seq![payload_value(*ok, values[1]->I64_0)];
                lemma_deeper(hir, *ok, payload, memory, less, more);
            } else {
                let payload = seq![payload_value(*err, values[1]->I64_0)];
                lemma_deeper(hir, *err, payload, memory, less, more);
            }
        },
        _ => {},
    }
}

proof fn lemma_pointer_deeper(
    hir: Hir,
    ty: Ty,
    ptr: nat,
    memory: Seq<u8>,
    less: nat,
    more: nat,
)
    requires
        less <= more,
        pointer_shown(hir, ty, ptr, memory, less) is Some,
    ensures
        pointer_shown(hir, ty, ptr, memory, more) == pointer_shown(hir, ty, ptr, memory, less),
    decreases less, ty, 1nat,
{
    match ty {
        Ty::Record(id) => {
            let fields = hir.records@[id.0 as int].fields@;
            lemma_parts_deeper(
                hir,
                fields,
                fields.len(),
                ptr,
                memory,
                (less - 1) as nat,
                (more - 1) as nat,
            );
        },
        Ty::Sum(id) => {
            let def = hir.sums@[id.0 as int];
            let index = if def.bare() {
                (ptr % 0x1_0000_0000) as u32
            } else {
                match u32_at(memory, ptr) {
                    Some(tag) => tag,
                    None => 0,
                }
            };
            if index < def.variants@.len() && def.variants@[index as int].fields@.len() > 0 {
                let fields = def.variants@[index as int].fields@;
                lemma_parts_deeper(
                    hir,
                    fields,
                    fields.len(),
                    ptr + WORD as nat,
                    memory,
                    (less - 1) as nat,
                    (more - 1) as nat,
                );
            }
        },
        _ => {},
    }
}

proof fn lemma_parts_deeper(
    hir: Hir,
    fields: Seq<(String, Ty)>,
    count: nat,
    start: nat,
    memory: Seq<u8>,
    less: nat,
    more: nat,
)
    requires
        less <= more,
        parts_shown(hir, fields, count, start, memory, less) is Some,
    ensures
        parts_shown(hir, fields, count, start, memory, more) == parts_shown(
            hir,
            fields,
            count,
            start,
            memory,
            less,
        ),
    decreases less, fields, count,
{
    if count > 0 && count <= fields.len() {
        lemma_parts_deeper(hir, fields, (count - 1) as nat, start, memory, less, more);
        lemma_field_deeper(
            hir,
            fields[count - 1].1,
            start + offset_of(fields, (count - 1) as nat),
            memory,
            less,
            more,
        );
    }
}

proof fn lemma_field_deeper(hir: Hir, ty: Ty, at: nat, memory: Seq<u8>, less: nat, more: nat)
    requires
        less <= more,
        field_shown(hir, ty, at, memory, less) is Some,
    ensures
        field_shown(hir, ty, at, memory, more) == field_shown(hir, ty, at, memory, less),
    decreases less, ty, 4nat,
{
    match ty {
        Ty::Record(_) | Ty::Sum(_) | Ty::List(_) => {
            if let Some(ptr) = u32_at(memory, at) {
                lemma_pointer_deeper(hir, ty, ptr as nat, memory, less, more);
            }
        },
        Ty::Option(inner) => {
            if let (Some(tag), Some(payload)) = (u32_at(memory, at), i64_at(memory, at + 8)) {
                if tag == 0 {
                    let value = seq![payload_value(*inner, payload)];
                    lemma_deeper(hir, *inner, value, memory, less, more);
                }
            }
        },
        Ty::Result(ok, err) => {
            if let (Some(tag), Some(payload)) = (u32_at(memory, at), i64_at(memory, at + 8)) {
                if tag == 0 {
                    let value = seq![payload_value(*ok, payload)];
                    lemma_deeper(hir, *ok, value, memory, less, more);
                } else {
                    let value = seq![payload_value(*err, payload)];
                    lemma_deeper(hir, *err, value, memory, less, more);
                }
            }
        },
        _ => {},
    }
}

/// The values that carry what a field at `at` holds: those a function that
/// returned it would return.
pub open spec fn loaded(ty: Ty, memory: Seq<u8>, at: nat) -> Seq<Val> {
    match ty {
        Ty::Int => seq![Val::I64(signed64(le64(memory, at as int)))],
        Ty::Float => seq![Val::F64(le64(memory, at as int))],
        Ty::Option(_) | Ty::Result(_, _) => seq![
            Val::I32(signed32(le32(memory, at as int))),
            Val::I64(signed64(le64(memory, at as int + 8))),
        ],
        _ => seq![Val::I32(signed32(le32(memory, at as int)))],
    }
}

/// How many bytes are read of a field to show it.
pub open spec fn read_room(ty: Ty) -> nat {
    match ty {
        Ty::Unit | Ty::Node | Ty::Never | Ty::Error => 0,
        Ty::Int | Ty::Float => 8,
        Ty::Option(_) | Ty::Result(_, _) => 16,
        _ => 4,
    }
}

/// A field is shown as the value it holds would be shown if it were returned,
/// wherever it is inside memory, and what it holds is no address in the upper
/// half.
pub proof fn a_field_is_shown_as_what_it_holds(
    hir: Hir,
    ty: Ty,
    at: nat,
    memory: Seq<u8>,
    depth: nat,
)
    requires
        at + read_room(ty) <= memory.len(),
        ty is Str || ty is Record || ty is Sum || ty is List ==> le32(memory, at as int)
            < 0x8000_0000,
    ensures
        field_shown(hir, ty, at, memory, depth) == shown(
            hir,
            ty,
            loaded(ty, memory, at),
            memory,
            depth,
        ),
{
    let word = le32(memory, at as int);
    assert(signed32(word) == 0 <==> word == 0);
    let wide = le64(memory, at as int);
    assert(pattern64(signed64(wide)) == wide);
}

/// A truth is shown as `true` exactly where the word that holds it is not zero,
/// and as `false` exactly where it is.
pub proof fn a_truth_is_shown_as_it_is(hir: Hir, at: nat, memory: Seq<u8>, value: i32, depth: nat)
    requires
        at + 4 <= memory.len(),
    ensures
        field_shown(hir, Ty::Bool, at, memory, depth) == Some(glyphs("true"@)) <==> le32(
            memory,
            at as int,
        ) != 0,
        field_shown(hir, Ty::Bool, at, memory, depth) == Some(glyphs("false"@)) <==> le32(
            memory,
            at as int,
        ) == 0,
        shown(hir, Ty::Bool, seq![Val::I32(value)], memory, depth) == Some(glyphs("true"@))
            <==> value != 0,
        shown(hir, Ty::Bool, seq![Val::I32(value)], memory, depth) == Some(glyphs("false"@))
            <==> value == 0,
{
    reveal_strlit("true");
    reveal_strlit("false");
    assert(glyphs("true"@).len() == 4);
    assert(glyphs("false"@).len() == 5);
}

/// A number is shown as itself: what is shown reads back as the number, so two
/// numbers are never shown alike.
pub proof fn a_number_is_shown_as_itself(
    hir: Hir,
    value: i64,
    other: i64,
    memory: Seq<u8>,
    depth: nat,
    text: Seq<char>,
)
    ensures
        shown(hir, Ty::Int, seq![Val::I64(value)], memory, depth) == Some(glyphs(text))
            ==> int_in(text) == Some(value),
        shown(hir, Ty::Int, seq![Val::I64(value)], memory, depth) is Some,
        value != other ==> shown(hir, Ty::Int, seq![Val::I64(value)], memory, depth) != shown(
            hir,
            Ty::Int,
            seq![Val::I64(other)],
            memory,
            depth,
        ),
{
    a_number_survives_being_written(value);
    a_number_survives_being_written(other);
    if shown(hir, Ty::Int, seq![Val::I64(value)], memory, depth) == Some(glyphs(text)) {
        lemma_one_text(decimal(value as int), text);
    }
    if shown(hir, Ty::Int, seq![Val::I64(value)], memory, depth) == shown(
        hir,
        Ty::Int,
        seq![Val::I64(other)],
        memory,
        depth,
    ) {
        lemma_one_text(decimal(value as int), decimal(other as int));
    }
}

/// Texts that are shown alike are one text.
proof fn lemma_one_text(a: Seq<char>, b: Seq<char>)
    requires
        glyphs(a) == glyphs(b),
    ensures
        a == b,
{
    assert(glyphs(a).len() == a.len() && glyphs(b).len() == b.len());
    assert forall|i: int| 0 <= i < a.len() implies a[i] == b[i] by {
        assert(glyphs(a)[i] == letter(a[i]));
        assert(glyphs(b)[i] == letter(b[i]));
    }
    assert(a =~= b);
}

/// What is there is shown with its payload inside: an `Option` or a `Result` is
/// its variant's name around what its payload slot would be shown as if it were
/// a field of its own.
pub proof fn a_payload_is_shown_as_a_field(
    hir: Hir,
    ok: Ty,
    err: Ty,
    at: nat,
    memory: Seq<u8>,
    depth: nat,
)
    requires
        at + 16 <= memory.len(),
        !(ok is Option || ok is Result),
        !(err is Option || err is Result),
        le32(memory, at as int + 8) < 0x8000_0000,
    ensures
        ({
            let some = field_shown(hir, Ty::Option(Box::new(ok)), at, memory, depth);
            let either = field_shown(
                hir,
                Ty::Result(Box::new(ok), Box::new(err)),
                at,
                memory,
                depth,
            );
            let good = field_shown(hir, ok, at + 8, memory, depth);
            let bad = field_shown(hir, err, at + 8, memory, depth);
            if le32(memory, at as int) == 0 {
                &&& good is Some ==> some == Some(glyphs("Some("@) + good->Some_0 + glyphs(")"@))
                &&& good is Some ==> either == Some(glyphs("Ok("@) + good->Some_0 + glyphs(")"@))
            } else {
                &&& some == Some(glyphs("None"@))
                &&& bad is Some ==> either == Some(glyphs("Err("@) + bad->Some_0 + glyphs(")"@))
            }
        }),
{
    reveal_strlit("Some");
    reveal_strlit("Ok");
    reveal_strlit("Err");
    reveal_strlit("(");
    reveal_strlit("Some(");
    reveal_strlit("Ok(");
    reveal_strlit("Err(");
    assert("Some"@ + "("@ =~= "Some("@);
    assert("Ok"@ + "("@ =~= "Ok("@);
    assert("Err"@ + "("@ =~= "Err("@);
    let low = le32(memory, at as int + 8);
    let wide = le64(memory, at as int + 8);
    assert(pattern64(signed64(wide)) == wide);
    assert(wide as int % 0x1_0000_0000 == low as int);
    assert(signed32(low) as int == low as int);
}

/// The rendering of more fields starts with the rendering of fewer.
proof fn lemma_parts_start(
    hir: Hir,
    fields: Seq<(String, Ty)>,
    less: nat,
    more: nat,
    start: nat,
    memory: Seq<u8>,
    depth: nat,
)
    requires
        less <= more <= fields.len(),
        parts_shown(hir, fields, more, start, memory, depth) is Some,
    ensures
        parts_shown(hir, fields, less, start, memory, depth) is Some,
        ({
            let a = parts_shown(hir, fields, less, start, memory, depth)->Some_0;
            let b = parts_shown(hir, fields, more, start, memory, depth)->Some_0;
            a.len() <= b.len() && b.take(a.len() as int) == a
        }),
    decreases more,
{
    let b = parts_shown(hir, fields, more, start, memory, depth)->Some_0;
    if less < more {
        lemma_parts_start(hir, fields, less, (more - 1) as nat, start, memory, depth);
        let a = parts_shown(hir, fields, less, start, memory, depth)->Some_0;
        let c = parts_shown(hir, fields, (more - 1) as nat, start, memory, depth)->Some_0;
        assert(b.take(c.len() as int) =~= c);
        assert(b.take(a.len() as int) =~= c.take(a.len() as int));
    } else {
        assert(b.take(b.len() as int) =~= b);
    }
}

/// Every field of a record is shown after its name, where those before it end:
/// the rendering of the fields goes on with the field's label and then with
/// what the field is shown as.
pub proof fn every_field_is_shown_in_its_place(
    hir: Hir,
    fields: Seq<(String, Ty)>,
    index: nat,
    start: nat,
    memory: Seq<u8>,
    depth: nat,
)
    requires
        index < fields.len(),
        parts_shown(hir, fields, fields.len(), start, memory, depth) is Some,
    ensures
        parts_shown(hir, fields, index, start, memory, depth) is Some,
        field_shown(hir, fields[index as int].1, start + offset_of(fields, index), memory, depth)
            is Some,
        ({
            let all = parts_shown(hir, fields, fields.len(), start, memory, depth)->Some_0;
            let before = parts_shown(hir, fields, index, start, memory, depth)->Some_0;
            let value = field_shown(
                hir,
                fields[index as int].1,
                start + offset_of(fields, index),
                memory,
                depth,
            )->Some_0;
            let label = if index == 0 {
                glyphs(fields[index as int].0@ + ": "@)
            } else {
                glyphs(", "@ + fields[index as int].0@ + ": "@)
            };
            let here = before + label + value;
            here.len() <= all.len() && all.take(here.len() as int) == here
        }),
{
    let next = index + 1;
    lemma_parts_start(hir, fields, next, fields.len(), start, memory, depth);
    lemma_parts_start(hir, fields, index, next, start, memory, depth);
    let name = fields[index as int].0@;
    let with = parts_shown(hir, fields, next, start, memory, depth)->Some_0;
    let before = parts_shown(hir, fields, index, start, memory, depth)->Some_0;
    let value = field_shown(
        hir,
        fields[index as int].1,
        start + offset_of(fields, index),
        memory,
        depth,
    )->Some_0;
    if index == 0 {
        assert(with =~= before + glyphs(name + ": "@) + value);
    } else {
        assert(with =~= before + glyphs(", "@ + name + ": "@) + value);
    }
}

/// Two records that differ in a truth are shown differently.
pub proof fn records_that_differ_in_a_truth_are_shown_apart(
    hir: Hir,
    id: RecordId,
    index: nat,
    p: nat,
    m: Seq<u8>,
    q: nat,
    n: Seq<u8>,
    depth: nat,
)
    requires
        index < hir.records@[id.0 as int].fields@.len(),
        hir.records@[id.0 as int].fields@[index as int].1 is Bool,
        pointer_shown(hir, Ty::Record(id), p, m, depth) is Some,
        pointer_shown(hir, Ty::Record(id), q, n, depth) is Some,
        ({
            let fields = hir.records@[id.0 as int].fields@;
            let a = p + offset_of(fields, index);
            let b = q + offset_of(fields, index);
            &&& a + 4 <= m.len()
            &&& b + 4 <= n.len()
            &&& (le32(m, a as int) != 0) != (le32(n, b as int) != 0)
            &&& parts_shown(hir, fields, index, p, m, (depth - 1) as nat) == parts_shown(
                hir,
                fields,
                index,
                q,
                n,
                (depth - 1) as nat,
            )
        }),
    ensures
        pointer_shown(hir, Ty::Record(id), p, m, depth) != pointer_shown(
            hir,
            Ty::Record(id),
            q,
            n,
            depth,
        ),
{
    let def = hir.records@[id.0 as int];
    let fields = def.fields@;
    let less = (depth - 1) as nat;
    every_field_is_shown_in_its_place(hir, fields, index, p, m, less);
    every_field_is_shown_in_its_place(hir, fields, index, q, n, less);
    let a = (p + offset_of(fields, index)) as nat;
    let b = (q + offset_of(fields, index)) as nat;
    a_truth_is_shown_as_it_is(hir, a, m, 0, less);
    a_truth_is_shown_as_it_is(hir, b, n, 0, less);
    let x = parts_shown(hir, fields, fields.len(), p, m, less)->Some_0;
    let y = parts_shown(hir, fields, fields.len(), q, n, less)->Some_0;
    let before = parts_shown(hir, fields, index, p, m, less)->Some_0;
    let label = if index == 0 {
        glyphs(fields[index as int].0@ + ": "@)
    } else {
        glyphs(", "@ + fields[index as int].0@ + ": "@)
    };
    reveal_strlit("true");
    reveal_strlit("false");
    let u = field_shown(hir, Ty::Bool, a, m, less)->Some_0;
    let v = field_shown(hir, Ty::Bool, b, n, less)->Some_0;
    assert(u == glyphs("true"@) || u == glyphs("false"@));
    assert(v == glyphs("true"@) || v == glyphs("false"@));
    let at = (before + label).len() as int;
    let hx = before + label + u;
    let hy = before + label + v;
    assert(x.take(hx.len() as int)[at] == hx[at]);
    assert(y.take(hy.len() as int)[at] == hy[at]);
    assert(hx[at] == u[0] && hy[at] == v[0]);
    assert(glyphs("true"@)[0] == letter('t'));
    assert(glyphs("false"@)[0] == letter('f'));
    let head = glyphs(def.name@ + " { "@);
    let gx = head + x + glyphs(" }"@);
    let gy = head + y + glyphs(" }"@);
    assert(gx[head.len() + at] == x[at]);
    assert(gy[head.len() + at] == y[at]);
}

/// A variant is shown by the name of the one its tag says it is: a bare tag by
/// itself, any other by the number where it is.
pub proof fn a_variant_is_shown_by_its_name(
    hir: Hir,
    id: SumId,
    ptr: nat,
    memory: Seq<u8>,
    depth: nat,
    tag: u32,
)
    requires
        tag < hir.sums@[id.0 as int].variants@.len(),
        if forall|v: int|
            0 <= v < hir.sums@[id.0 as int].variants@.len() ==> (
            #[trigger] hir.sums@[id.0 as int].variants@[v]).fields@.len() == 0 {
            ptr == tag
        } else {
            ptr + 4 <= memory.len() && le32(memory, ptr as int) == tag
        },
        pointer_shown(hir, Ty::Sum(id), ptr, memory, depth) is Some,
    ensures
        ({
            let variant = hir.sums@[id.0 as int].variants@[tag as int];
            let out = pointer_shown(hir, Ty::Sum(id), ptr, memory, depth)->Some_0;
            if variant.fields@.len() == 0 {
                out == glyphs(variant.name@)
            } else {
                let inner = parts_shown(
                    hir,
                    variant.fields@,
                    variant.fields@.len(),
                    ptr + 8,
                    memory,
                    (depth - 1) as nat,
                );
                inner is Some && out == glyphs(variant.name@) + glyphs("("@) + inner->Some_0
                    + glyphs(")"@)
            }
        }),
{
    let variant = hir.sums@[id.0 as int].variants@[tag as int];
    assert(glyphs(variant.name@ + "("@) =~= glyphs(variant.name@) + glyphs("("@));
}

/// A message is shown as it was written: wherever its bytes are put, what is
/// there is shown by the name that was its first word.
pub proof fn a_message_is_shown_as_it_was_written(
    hir: Hir,
    id: SumId,
    text: Seq<char>,
    floats: Seq<Option<u64>>,
    at: nat,
    memory: Seq<u8>,
    depth: nat,
)
    requires
        hir.sums@[id.0 as int].variants@.len() < 0x8000_0000,
        !hir.sums@[id.0 as int].bare(),
        message_bytes(hir, Ty::Sum(id), text, floats) matches Ok(bytes) && at + bytes.len()
            <= memory.len() && memory.subrange(at as int, (at + bytes.len()) as int) == bytes,
        pointer_shown(hir, Ty::Sum(id), at, memory, depth) is Some,
    ensures
        ({
            let out = pointer_shown(hir, Ty::Sum(id), at, memory, depth)->Some_0;
            let first = glyphs(words_in(text)[0]);
            &&& first.len() <= out.len()
            &&& out.take(first.len() as int) == first
            &&& words_in(text).len() == 1 ==> out == first
        }),
{
    a_message_carries_the_variant_it_names(hir, id, text, floats);
    let bytes = message_bytes(hir, Ty::Sum(id), text, floats)->Ok_0;
    let part = memory.subrange(at as int, (at + bytes.len()) as int);
    assert(part[0] == memory[at as int + 0] && part[1] == memory[at as int + 1]);
    assert(part[2] == memory[at as int + 2] && part[3] == memory[at as int + 3]);
    lemma_le32_congruent(memory, at as int, bytes, 0);
    let tag = le32(bytes, 0);
    a_variant_is_shown_by_its_name(hir, id, at, memory, depth, tag);
    let out = pointer_shown(hir, Ty::Sum(id), at, memory, depth)->Some_0;
    let first = glyphs(words_in(text)[0]);
    assert(out.take(first.len() as int) =~= first);
}

/// A field of a message is shown as it was written: a number as the number that
/// its word spelled, a truth as the word itself, and a float as its bits.
pub proof fn a_field_of_a_message_is_shown_as_it_was_written(
    hir: Hir,
    id: SumId,
    text: Seq<char>,
    floats: Seq<Option<u64>>,
    at: nat,
    memory: Seq<u8>,
    depth: nat,
    index: int,
    number: i64,
)
    requires
        hir.sums@[id.0 as int].variants@.len() < 0x8000_0000,
        message_bytes(hir, Ty::Sum(id), text, floats) matches Ok(bytes) && at + bytes.len()
            <= memory.len() && memory.subrange(at as int, (at + bytes.len()) as int) == bytes,
        0 <= index,
        1 + index < words_in(text).len(),
    ensures
        ({
            let bytes = message_bytes(hir, Ty::Sum(id), text, floats)->Ok_0;
            let ty = hir.sums@[id.0 as int].variants@[le32(bytes, 0) as int].fields@[index].1;
            let word = words_in(text)[1 + index];
            let out = field_shown(hir, ty, (at + 8 * (1 + index)) as nat, memory, depth);
            &&& ty is Int && word == decimal(number as int) ==> out == Some(glyphs(word))
            &&& ty is Bool ==> out == Some(glyphs(word))
            &&& ty is Float ==> (out matches Some(shown) && floats[1 + index] matches Some(bits)
                && shown == seq![Glyph::Float(bits)])
        }),
{
    a_message_carries_the_variant_it_names(hir, id, text, floats);
    a_message_carries_its_fields(hir, id, text, floats, index, number);
    let bytes = message_bytes(hir, Ty::Sum(id), text, floats)->Ok_0;
    let part = memory.subrange(at as int, (at + bytes.len()) as int);
    let here = 8 * (1 + index);
    assert forall|k: int| 0 <= k < bytes.len() implies memory[at as int + k]
        == #[trigger] bytes[k] by {
        assert(part[k] == memory[at as int + k]);
    }
    let variants = hir.sums@[id.0 as int].variants@;
    let tag = le32(bytes, 0) as int;
    assert(variants[tag].fields@.len() > 0);
    assert(bytes.len() == 8 * words_in(text).len());
    assert(bytes[here + 0] == memory[at as int + here + 0]);
    assert(bytes[here + 1] == memory[at as int + here + 1]);
    assert(bytes[here + 2] == memory[at as int + here + 2]);
    assert(bytes[here + 3] == memory[at as int + here + 3]);
    assert(bytes[here + 4] == memory[at as int + here + 4]);
    assert(bytes[here + 5] == memory[at as int + here + 5]);
    assert(bytes[here + 6] == memory[at as int + here + 6]);
    assert(bytes[here + 7] == memory[at as int + here + 7]);
    lemma_le32_congruent(memory, at as int + here, bytes, here);
    lemma_le32_congruent(memory, at as int + here + 4, bytes, here + 4);
    let wide = le64(memory, at as int + here);
    assert(pattern64(signed64(wide)) == wide);
    a_truth_is_shown_as_it_is(hir, (at + here) as nat, memory, 0, depth);
}

/// A string is shown as the text it holds, quoted: where its length and its
/// bytes are in memory, that is what is shown of it.
pub proof fn a_string_is_shown_as_it_was_written(memory: Seq<u8>, ptr: nat, raw: Seq<u8>)
    requires
        raw.len() <= u32::MAX,
        ptr + 4 + raw.len() <= memory.len(),
        memory.subrange(ptr as int, (ptr + 4) as int) == bytes32(raw.len() as u32),
        memory.subrange((ptr + 4) as int, (ptr + 4 + raw.len()) as int) == raw,
    ensures
        string_shown(memory, ptr) == debug_text(lossy_text(raw)),
{
    let len = raw.len() as u32;
    lemma_bytes32(len);
    let part = memory.subrange(ptr as int, (ptr + 4) as int);
    assert(part[0] == memory[ptr as int] && part[1] == memory[ptr as int + 1]);
    assert(part[2] == memory[ptr as int + 2] && part[3] == memory[ptr as int + 3]);
    lemma_le32_congruent(memory, ptr as int, bytes32(len), 0);
}

/// What is outside memory is shown as such, and never as a value.
pub proof fn what_is_outside_memory_is_shown_as_such(
    hir: Hir,
    ty: Ty,
    at: nat,
    memory: Seq<u8>,
    depth: nat,
)
    requires
        at >= memory.len(),
        !(ty is Unit || ty is Node || ty is Never || ty is Error),
    ensures
        field_shown(hir, ty, at, memory, depth) == Some(glyphs("<oob>"@)),
        string_shown(memory, at) == "<bad string pointer>"@,
{
}

/// The function that is run has the name it is asked for by, and is the first
/// that has.
pub proof fn the_first_of_a_name_is_found(funcs: Seq<FuncDef>, name: Seq<char>, index: nat)
    ensures
        match func_named(funcs, name, index) {
            Some(found) => {
                &&& index <= found < funcs.len()
                &&& funcs[found as int].name@ == name
                &&& forall|i: int| index <= i < found ==> (#[trigger] funcs[i]).name@ != name
            },
            None => forall|i: int| index <= i < funcs.len() ==> (#[trigger] funcs[i]).name@ != name,
        },
    decreases funcs.len() - index,
{
    if index < funcs.len() && funcs[index as int].name@ != name {
        the_first_of_a_name_is_found(funcs, name, index + 1);
    }
}

} // verus!
