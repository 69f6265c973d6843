//! Lifting an actor's state out of its arena.
//!
//! The walk is driven by the state's type and the layout of its values. What
//! comes out is one relocatable image, not a tree of host objects: the
//! reachable graph is copied into one block, and where the pointers are is
//! recorded beside it. Restoring is then a single allocation and a single
//! write, in an arena that has never seen the old addresses.
//!
//! A source address is visited once, so two fields that point at one list
//! point at one list afterwards.

use std::collections::HashMap;

use vstd::prelude::*;
use vstd::string::StringExecFns;

use crate::bytes::{
    bytes32, copy_bytes, le32, pattern32, put_u32, read_u32, splice, to_pattern32,
};
use crate::hir::{fields_known, Hir, SumId, Ty};
use crate::layout::{
    boxed_sum_size, field_offset, is_bare_tag, is_boxed, lemma_offset, lemma_offset_order,
    lemma_widest, offset_of, record_size, stride, words, LIST_HEADER, STR_HEADER, WORD,
};
use crate::shape::{form, shape, written};
use crate::snapshot::{Root, Snapshot};
use crate::text::{address, decimal, hexadecimal, number};
use crate::val::Val;

verus! {

broadcast use vstd::std_specs::hash::group_hash_axioms;

/// The kind of value a state global should have held.
#[derive(Clone, Copy, Debug, PartialEq, Eq, Structural)]
pub enum GlobalKind {
    I32,
    I64,
    F64,
}

/// Why a state could not be lifted out.
#[derive(Debug)]
pub enum CaptureError {
    /// The state global holds another kind of value than its type says.
    Global { found: Val, expected: GlobalKind },
    /// The state global is still zero: `init` has not run.
    NotBuilt,
    /// A state of this type never reaches a global.
    Unsupported { ty: Ty },
    /// A value of this type is not behind a pointer.
    NotBoxed { ty: Ty },
    /// The tag in the arena is none of the sum's.
    NoVariant { sum: SumId, tag: u32 },
    /// The state reaches `len` bytes at `at`, past the end of the arena.
    Past { at: u64, len: u64 },
    /// The image would not fit in an address space of 32 bits.
    TooLarge,
}

impl CaptureError {
    /// The error in words, where `shown` is how the compiler writes the type it
    /// names, or how the runtime writes the value it found.
    pub open spec fn words(self, hir: Hir, shown: Seq<char>) -> Seq<char> {
        match self {
            CaptureError::Global { expected, .. } => "the state global is "@ + shown
                + ", expected an "@ + match expected {
                GlobalKind::I32 => "i32"@,
                GlobalKind::I64 => "i64"@,
                GlobalKind::F64 => "f64"@,
            },
            CaptureError::NotBuilt => "this actor has not built its state yet"@,
            CaptureError::Unsupported { .. } => "a state of type "@ + shown
                + " cannot be snapshotted"@,
            CaptureError::NotBoxed { .. } => shown + " is not a boxed value"@,
            CaptureError::NoVariant { sum, tag } => "`"@ + hir.sums@[sum.0 as int].name@
                + "` has no variant "@ + decimal(tag as int)
                + " \u{2014} the arena is not what its type says"@,
            CaptureError::Past { at, len } => "the state reaches "@ + decimal(len as int)
                + " bytes at "@ + hexadecimal(at as nat) + ", past this arena"@,
            CaptureError::TooLarge => "the state does not fit in an image of 32-bit offsets"@,
        }
    }

    /// The error in words, where `shown` is how the compiler writes the type it
    /// names, or how the runtime writes the value it found.
    pub fn message(&self, hir: &Hir, shown: &str) -> (r: String)
        requires
            self matches CaptureError::NoVariant { sum, .. } ==> sum.0 < hir.sums@.len(),
        ensures
            r@ == self.words(*hir, shown@),
    {
        match self {
            CaptureError::Global { expected, .. } => {
                let mut out = "the state global is ".to_owned();
                out.append(shown);
                out.append(", expected an ");
                match expected {
                    GlobalKind::I32 => out.append("i32"),
                    GlobalKind::I64 => out.append("i64"),
                    GlobalKind::F64 => out.append("f64"),
                }
                out
            },
            CaptureError::NotBuilt => "this actor has not built its state yet".to_owned(),
            CaptureError::Unsupported { .. } => {
                let mut out = "a state of type ".to_owned();
                out.append(shown);
                out.append(" cannot be snapshotted");
                out
            },
            CaptureError::NotBoxed { .. } => {
                let mut out = shown.to_owned();
                out.append(" is not a boxed value");
                out
            },
            CaptureError::NoVariant { sum, tag } => {
                let mut out = "`".to_owned();
                out.append(hir.sums[sum.0 as usize].name.as_str());
                out.append("` has no variant ");
                out.append(number(*tag as u64).as_str());
                out.append(" \u{2014} the arena is not what its type says");
                out
            },
            CaptureError::Past { at, len } => {
                let mut out = "the state reaches ".to_owned();
                out.append(number(*len).as_str());
                out.append(" bytes at ");
                out.append(address(*at).as_str());
                out.append(", past this arena");
                out
            },
            CaptureError::TooLarge => "the state does not fit in an image of 32-bit offsets".to_owned(),
        }
    }
}

/// One field- or element-sized place: what it holds, and how far into the
/// object it is.
pub struct Slot {
    pub ty: Ty,
    pub offset: nat,
}

/// What an object looks like: how large it is, how many bytes at its start are
/// copied as they are, and the places that follow.
pub struct Outline {
    pub size: nat,
    pub head: nat,
    pub slots: Seq<Slot>,
}

/// What a place holds: how many bytes of it are copied as they are, and where
/// in it there is a pointer to follow.
pub struct Cell {
    pub copy: nat,
    pub link: Option<Slot>,
}

/// How far a walk has come.
pub struct Image {
    pub bytes: Seq<u8>,
    pub sites: Seq<u32>,
    /// Guest address to the offset it was copied to.
    pub seen: Map<u32, u32>,
    /// Guest address to the type it was read as.
    pub kinds: Map<u32, Ty>,
}

/// Whether a value of type `ty` is a pointer to an object.
pub open spec fn links(hir: Hir, ty: Ty) -> bool {
    ty.boxed() && !(ty matches Ty::Sum(id) && hir.sums@[id.0 as int].bare())
}

/// The places a list's elements take.
pub open spec fn element_slots(ty: Ty, count: nat) -> Seq<Slot> {
    Seq::new(
        count,
        |i: int| Slot { ty, offset: (LIST_HEADER + ty.words() * WORD * i) as nat },
    )
}

/// The places fields take when the first is at `start`.
pub open spec fn field_slots(fields: Seq<(String, Ty)>, start: nat) -> Seq<Slot> {
    Seq::new(
        fields.len(),
        |i: int| Slot { ty: fields[i].1, offset: start + offset_of(fields, i as nat) },
    )
}

/// What the object of type `ty` at `ptr` looks like.
pub open spec fn outline(hir: Hir, memory: Seq<u8>, ty: Ty, ptr: u32) -> Result<
    Outline,
    CaptureError,
> {
    let header = le32(memory, ptr as int);
    match ty {
        Ty::Str => if ptr + 4 > memory.len() {
            Err(CaptureError::Past { at: ptr as u64, len: 4 })
        } else {
            Ok(
                Outline {
                    size: (STR_HEADER + header) as nat,
                    head: (STR_HEADER + header) as nat,
                    slots: Seq::empty(),
                },
            )
        },
        Ty::List(elem) => if ptr + 4 > memory.len() {
            Err(CaptureError::Past { at: ptr as u64, len: 4 })
        } else {
            Ok(
                Outline {
                    size: (LIST_HEADER + elem.words() * WORD * header) as nat,
                    head: 4,
                    slots: element_slots(*elem, header as nat),
                },
            )
        },
        Ty::Record(id) => {
            let fields = hir.records@[id.0 as int].fields@;
            Ok(
                Outline {
                    size: offset_of(fields, fields.len()),
                    head: 0,
                    slots: field_slots(fields, 0),
                },
            )
        },
        Ty::Sum(id) => {
            let def = hir.sums@[id.0 as int];
            if ptr + 4 > memory.len() {
                Err(CaptureError::Past { at: ptr as u64, len: 4 })
            } else if header >= def.variants@.len() {
                Err(CaptureError::NoVariant { sum: id, tag: header })
            } else {
                Ok(
                    Outline {
                        size: def.size(),
                        head: 4,
                        slots: field_slots(def.variants@[header as int].fields@, WORD as nat),
                    },
                )
            }
        },
        _ => Err(CaptureError::NotBoxed { ty }),
    }
}

/// What the place of type `ty` at `from` holds.
pub open spec fn cell(hir: Hir, memory: Seq<u8>, ty: Ty, from: int) -> Result<
    Cell,
    CaptureError,
> {
    let size = ty.words() * WORD;
    match ty {
        Ty::Unit | Ty::Node | Ty::Never | Ty::Error => Ok(Cell { copy: 0, link: None }),
        Ty::Option(_) | Ty::Result(_, _) => if from + 4 > memory.len() {
            Err(CaptureError::Past { at: from as u64, len: 4 })
        } else if from + size > memory.len() {
            Err(CaptureError::Past { at: from as u64, len: size as u64 })
        } else {
            Ok(Cell { copy: size as nat, link: payload(hir, ty, le32(memory, from)) })
        },
        _ => if links(hir, ty) {
            if from + 4 > memory.len() {
                Err(CaptureError::Past { at: from as u64, len: 4 })
            } else {
                Ok(Cell { copy: 0, link: Some(Slot { ty, offset: 0 }) })
            }
        } else if from + size > memory.len() {
            Err(CaptureError::Past { at: from as u64, len: size as u64 })
        } else {
            Ok(Cell { copy: size as nat, link: None })
        },
    }
}

/// The pointer an `Option` or a `Result` with this tag carries, if any. Which
/// type the payload has depends on the tag.
pub open spec fn payload(hir: Hir, ty: Ty, tag: u32) -> Option<Slot> {
    let live = match ty {
        Ty::Option(inner) => if tag == 0 {
            *inner
        } else {
            Ty::Unit
        },
        Ty::Result(ok, err) => if tag == 0 {
            *ok
        } else {
            *err
        },
        _ => Ty::Unit,
    };
    if links(hir, live) {
        Some(Slot { ty: live, offset: WORD as nat })
    } else {
        None
    }
}

/// `size` rounded up to a whole word, exactly as a guest's allocator does.
pub open spec fn padded(size: nat) -> nat {
    (size + 7) / 8 * 8
}

/// `s` with room made at its end for the object at `ptr`, and the bytes at its
/// start copied.
pub open spec fn entered(s: Image, memory: Seq<u8>, ty: Ty, ptr: u32, o: Outline) -> Image {
    let at = s.bytes.len() as int;
    let room = s.bytes + Seq::new(padded(o.size), |i: int| 0u8);
    Image {
        bytes: if o.head == 0 {
            room
        } else {
            splice(room, at, memory.subrange(ptr as int, ptr + o.head))
        },
        sites: s.sites,
        seen: s.seen.insert(ptr, at as u32),
        kinds: s.kinds.insert(ptr, ty),
    }
}

/// `s` with the bytes of a place copied.
pub open spec fn copied(s: Image, memory: Seq<u8>, from: int, to: int, count: nat) -> Image {
    if count == 0 {
        s
    } else {
        Image { bytes: splice(s.bytes, to, memory.subrange(from, from + count)), ..s }
    }
}

/// `s` with a pointer to the object at offset `child` written at `to`.
pub open spec fn linked(s: Image, to: int, child: u32) -> Image {
    Image { bytes: splice(s.bytes, to, bytes32(child)), sites: s.sites.push(to as u32), ..s }
}

/// The walk from the object of type `ty` at `ptr`: the offset it is at, and
/// the image with it and everything it reaches. `depth` is how many objects
/// may still nest inside each other.
pub open spec fn object(hir: Hir, memory: Seq<u8>, ty: Ty, ptr: u32, s: Image, depth: nat) -> Result<
    (u32, Image),
    CaptureError,
>
    decreases depth, 0nat, 0nat,
{
    if s.seen.contains_key(ptr) {
        Ok((s.seen[ptr], s))
    } else if depth == 0 {
        Err(CaptureError::TooLarge)
    } else {
        match outline(hir, memory, ty, ptr) {
            Err(e) => Err(e),
            Ok(o) => if s.bytes.len() + padded(o.size) > u32::MAX {
                Err(CaptureError::TooLarge)
            } else if o.head > 0 && ptr + o.head > memory.len() {
                Err(CaptureError::Past { at: ptr as u64, len: o.head as u64 })
            } else {
                let at = s.bytes.len();
                let start = entered(s, memory, ty, ptr, o);
                match places(hir, memory, o.slots, 0, ptr, at as int, start, (depth - 1) as nat) {
                    Err(e) => Err(e),
                    Ok(t) => Ok((at as u32, t)),
                }
            },
        }
    }
}

/// The walk through the places from `index` on, of an object at `ptr` that is
/// copied to `at`.
pub open spec fn places(
    hir: Hir,
    memory: Seq<u8>,
    slots: Seq<Slot>,
    index: nat,
    ptr: u32,
    at: int,
    s: Image,
    depth: nat,
) -> Result<Image, CaptureError>
    decreases depth, 2nat, slots.len() - index,
{
    if index >= slots.len() {
        Ok(s)
    } else {
        let slot = slots[index as int];
        match place(hir, memory, slot.ty, ptr + slot.offset, at + slot.offset, s, depth) {
            Err(e) => Err(e),
            Ok(t) => places(hir, memory, slots, index + 1, ptr, at, t, depth),
        }
    }
}

/// The walk through one place of type `ty`, from `from` in the arena to `to`
/// in the image.
pub open spec fn place(
    hir: Hir,
    memory: Seq<u8>,
    ty: Ty,
    from: int,
    to: int,
    s: Image,
    depth: nat,
) -> Result<Image, CaptureError>
    decreases depth, 1nat, 0nat,
{
    match cell(hir, memory, ty, from) {
        Err(e) => Err(e),
        Ok(c) => match c.link {
            None => Ok(copied(s, memory, from, to, c.copy)),
            Some(link) => {
                let ptr = le32(memory, from + link.offset);
                if ptr == 0 {
                    Ok(copied(s, memory, from, to, c.copy))
                } else {
                    match object(hir, memory, link.ty, ptr, s, depth) {
                        Err(e) => Err(e),
                        Ok((child, t)) => Ok(
                            linked(
                                copied(t, memory, from, to, c.copy),
                                to + link.offset,
                                child,
                            ),
                        ),
                    }
                }
            },
        },
    }
}

/// An image with nothing in it.
pub open spec fn empty_image() -> Image {
    Image {
        bytes: Seq::empty(),
        sites: Seq::empty(),
        seen: Map::empty(),
        kinds: Map::empty(),
    }
}

/// How many addresses there are. Objects cannot nest deeper.
pub open spec fn addresses() -> nat {
    0x1_0000_0000
}

/// What a state of type `ty` whose global holds `root` is lifted out as: the
/// root, and everything behind it.
pub open spec fn lifted(hir: Hir, ty: Ty, memory: Seq<u8>, root: Val) -> Result<
    (Root, Image),
    CaptureError,
> {
    match ty {
        Ty::Int => match root {
            Val::I64(value) => Ok((Root::I64(value), empty_image())),
            _ => Err(CaptureError::Global { found: root, expected: GlobalKind::I64 }),
        },
        Ty::Float => match root {
            Val::F64(bits) => Ok((Root::F64Bits(bits), empty_image())),
            _ => Err(CaptureError::Global { found: root, expected: GlobalKind::F64 }),
        },
        Ty::Unit | Ty::Node | Ty::Never | Ty::Error | Ty::Option(_) | Ty::Result(_, _) => Err(
            CaptureError::Unsupported { ty },
        ),
        _ => match root {
            Val::I32(value) => if !links(hir, ty) {
                Ok((Root::I32(value), empty_image()))
            } else if value == 0 {
                Err(CaptureError::NotBuilt)
            } else {
                match object(hir, memory, ty, pattern32(value), empty_image(), addresses()) {
                    Err(e) => Err(e),
                    Ok((at, image)) => Ok((Root::Pointer(at), image)),
                }
            },
            _ => Err(CaptureError::Global { found: root, expected: GlobalKind::I32 }),
        },
    }
}

/// Every place of an object is inside it.
pub(crate) proof fn lemma_slots_fit(hir: Hir, memory: Seq<u8>, ty: Ty, ptr: u32, index: int)
    requires
        outline(hir, memory, ty, ptr) matches Ok(o) && 0 <= index < o.slots.len(),
    ensures
        ({
            let o = outline(hir, memory, ty, ptr)->Ok_0;
            let slot = o.slots[index];
            &&& slot.offset % 8 == 0
            &&& slot.offset >= o.head
            &&& slot.offset + slot.ty.words() * WORD <= o.size
            &&& slot.offset + slot.ty.words() * WORD <= padded(o.size)
        }),
{
    let o = outline(hir, memory, ty, ptr)->Ok_0;
    let slot = o.slots[index];
    match ty {
        Ty::List(elem) => {
            let w = (elem.words() * WORD) as int;
            assert(w == 8 || w == 16);
            let count = o.slots.len() as int;
            assert(w * index + w <= w * count) by (nonlinear_arith)
                requires
                    index + 1 <= count,
                    0 <= w,
            ;
            assert((w * index) % 8 == 0) by (nonlinear_arith)
                requires
                    w == 8 || w == 16,
            ;
        },
        Ty::Record(id) => {
            let fields = hir.records@[id.0 as int].fields@;
            lemma_offset(fields, index as nat);
            lemma_offset_order(fields, index as nat, fields.len());
        },
        Ty::Sum(id) => {
            let def = hir.sums@[id.0 as int];
            let tag = le32(memory, ptr as int) as nat;
            let fields = def.variants@[tag as int].fields@;
            lemma_offset(fields, index as nat);
            lemma_offset_order(fields, index as nat, fields.len());
            lemma_widest(def, def.variants@.len(), tag);
        },
        _ => {},
    }
}

/// No more addresses can have been visited than there are, and fewer while one
/// is still new.
proof fn lemma_visited(seen: Map<u32, u32>, ptr: u32)
    requires
        seen.dom().finite(),
    ensures
        seen.dom().len() <= addresses(),
        !seen.contains_key(ptr) ==> seen.dom().len() < addresses(),
{
    let f = |p: u32| p as int;
    let all = vstd::set_lib::set_int_range(0, 0x1_0000_0000);
    vstd::set_lib::lemma_int_range(0, 0x1_0000_0000);
    let image = seen.dom().map(f);
    assert(vstd::relations::injective_on(f, seen.dom()));
    vstd::set_lib::lemma_map_size(seen.dom(), image, f);
    assert(image.subset_of(all));
    vstd::set_lib::lemma_len_subset(image, all);
    if !seen.contains_key(ptr) {
        let rest = all.remove(ptr as int);
        assert(image.subset_of(rest));
        vstd::set_lib::lemma_len_subset(image, rest);
    }
}

/// The places after an object's first bytes, as the declarations give them.
enum Parts<'a> {
    Nothing,
    Elements { ty: &'a Ty, count: u32 },
    Fields { fields: &'a Vec<(String, Ty)>, start: u64 },
}

/// What an object looks like, read from the arena.
struct Found<'a> {
    size: u64,
    head: u64,
    parts: Parts<'a>,
}

impl<'a> Found<'a> {
    spec fn outline(self) -> Outline {
        Outline {
            size: self.size as nat,
            head: self.head as nat,
            slots: match self.parts {
                Parts::Nothing => Seq::empty(),
                Parts::Elements { ty, count } => element_slots(*ty, count as nat),
                Parts::Fields { fields, start } => field_slots(fields@, start as nat),
            },
        }
    }

    spec fn valid(self, hir: Hir) -> bool {
        &&& self.size <= 8 + 16 * 0x1_0000_0000
        &&& self.head <= 4 + 0xffff_ffff
        &&& match self.parts {
            Parts::Nothing => true,
            Parts::Elements { ty, count } => ty.known(hir),
            Parts::Fields { fields, start } => fields_known(fields@, hir) && start <= 8,
        }
    }

    fn count(&self) -> (r: usize)
        requires
            self.parts matches Parts::Fields { fields, .. } ==> fields@.len() < 0x1_0000_0000,
        ensures
            r == self.outline().slots.len(),
    {
        match self.parts {
            Parts::Nothing => 0,
            Parts::Elements { count, .. } => count as usize,
            Parts::Fields { fields, .. } => fields.len(),
        }
    }

    fn slot(&self, index: usize, Ghost(hir): Ghost<Hir>) -> (r: (&'a Ty, u64))
        requires
            self.valid(hir),
            index < self.outline().slots.len(),
        ensures
            (Slot { ty: *r.0, offset: r.1 as nat }) == self.outline().slots[index as int],
            r.0.known(hir),
    {
        match self.parts {
            Parts::Nothing => (&Ty::Unit, 0),
            Parts::Elements { ty, count } => {
                let step: u64 = stride(ty);
                assert(step * index <= 16 * 0x1_0000_0000) by (nonlinear_arith)
                    requires
                        step <= 16,
                        index < 0x1_0000_0000,
                ;
                (ty, LIST_HEADER + step * index as u64)
            },
            Parts::Fields { fields, start } => {
                assert(fields@[index as int].1.known(hir));
                (&fields[index].1, start + field_offset(fields, index))
            },
        }
    }
}

/// What a place holds, read from the arena.
struct Held<'a> {
    copy: u64,
    link: Option<(&'a Ty, u64)>,
}

impl<'a> Held<'a> {
    spec fn cell(self) -> Cell {
        Cell {
            copy: self.copy as nat,
            link: match self.link {
                Some((ty, shift)) => Some(Slot { ty: *ty, offset: shift as nat }),
                None => None,
            },
        }
    }
}

/// The walk over one actor's arena.
struct Walker<'a> {
    hir: &'a Hir,
    memory: &'a [u8],
    out: Vec<u8>,
    relocations: Vec<u32>,
    seen: HashMap<u32, u32>,
    kinds: Ghost<Map<u32, Ty>>,
}

impl<'a> Walker<'a> {
    spec fn image(self) -> Image {
        Image {
            bytes: self.out@,
            sites: self.relocations@,
            seen: self.seen@,
            kinds: self.kinds@,
        }
    }

    spec fn valid(self) -> bool {
        &&& self.hir.valid()
        &&& self.out@.len() <= u32::MAX
    }

    /// Whether the walk is over the same arena and has only gone on.
    spec fn follows(self, before: Self) -> bool {
        &&& self.valid()
        &&& self.hir == before.hir
        &&& self.memory == before.memory
        &&& self.out@.len() >= before.out@.len()
        &&& self.seen@.dom().len() >= before.seen@.dom().len()
    }

    /// Copies the object at `ptr` into the image and returns its offset.
    fn object(&mut self, ty: &'a Ty, ptr: u32, Ghost(depth): Ghost<nat>) -> (r: Result<
        u32,
        CaptureError,
    >)
        requires
            old(self).valid(),
            ty.known(*old(self).hir),
            depth + old(self).seen@.dom().len() >= addresses(),
        ensures
            r is Ok ==> final(self).follows(*old(self)),
            match r {
                Ok(at) => object(
                    *old(self).hir,
                    old(self).memory@,
                    *ty,
                    ptr,
                    old(self).image(),
                    depth,
                ) == Ok::<(u32, Image), CaptureError>((at, final(self).image())),
                Err(e) => object(
                    *old(self).hir,
                    old(self).memory@,
                    *ty,
                    ptr,
                    old(self).image(),
                    depth,
                ) == Err::<(u32, Image), CaptureError>(e),
            },
        decreases depth, 0nat,
    {
        if let Some(offset) = self.seen.get(&ptr) {
            return Ok(*offset);
        }
        let ghost whole = object(*self.hir, self.memory@, *ty, ptr, self.image(), depth);
        proof {
            lemma_visited(self.seen@, ptr);
        }
        let found: Found<'a> = match self.find(ty, ptr) {
            Ok(found) => found,
            Err(e) => {
                return Err(e);
            },
        };
        let ghost o = found.outline();
        let ghost hir = *self.hir;
        let ghost memory = self.memory@;
        let ghost before = *self;
        let at: u32 = match self.reserve(found.size) {
            Some(at) => at,
            None => {
                return Err(CaptureError::TooLarge);
            },
        };
        self.seen.insert(ptr, at);
        proof {
            self.kinds@ = self.kinds@.insert(ptr, *ty);
        }
        // A record has no bytes of its own: its fields are read one by one.
        if found.head > 0 {
            if !self.inside(ptr as u64, found.head) {
                return Err(CaptureError::Past { at: ptr as u64, len: found.head });
            }
            proof {
                lemma_head_fits(hir, memory, *ty, ptr);
                assert(self.memory.len() >= ptr + found.head);
            }
            copy_bytes(&mut self.out, at as usize, self.memory, ptr as usize, found.head as usize);
        }
        let ghost start = self.image();
        assert(start.bytes =~= entered(before.image(), memory, *ty, ptr, o).bytes);
        assert(start == entered(before.image(), memory, *ty, ptr, o));
        let count: usize = found.count();
        for index in 0..count
            invariant
                hir == *self.hir,
                memory == self.memory@,
                self.follows(before),
                found.valid(hir),
                o == found.outline(),
                outline(hir, memory, *ty, ptr) == Ok::<Outline, CaptureError>(o),
                count == o.slots.len(),
                depth > 0,
                whole == object(
                    *old(self).hir,
                    old(self).memory@,
                    *ty,
                    ptr,
                    old(self).image(),
                    depth,
                ),
                whole == (match places(
                    hir,
                    memory,
                    o.slots,
                    0,
                    ptr,
                    at as int,
                    start,
                    (depth - 1) as nat,
                ) {
                    Err(e) => Err::<(u32, Image), CaptureError>(e),
                    Ok(t) => Ok((at, t)),
                }),
                before == *old(self),
                depth - 1 + self.seen@.dom().len() >= addresses(),
                at + padded(o.size) <= self.out@.len(),
                places(hir, memory, o.slots, 0, ptr, at as int, start, (depth - 1) as nat)
                    == places(
                    hir,
                    memory,
                    o.slots,
                    index as nat,
                    ptr,
                    at as int,
                    self.image(),
                    (depth - 1) as nat,
                ),
        {
            let (slot_ty, offset) = found.slot(index, Ghost(hir));
            proof {
                lemma_slots_fit(hir, memory, *ty, ptr, index as int);
            }
            let ghost deeper = (depth - 1) as nat;
            match self.slot(slot_ty, ptr as u64 + offset, at as u64 + offset, Ghost(deeper)) {
                Ok(_) => {},
                Err(e) => {
                    return Err(e);
                },
            }
        }
        Ok(at)
    }

    /// Copies one field- or element-sized value from the arena into the image.
    fn slot(&mut self, ty: &'a Ty, from: u64, to: u64, Ghost(depth): Ghost<nat>) -> (r: Result<
        (),
        CaptureError,
    >)
        requires
            old(self).valid(),
            ty.known(*old(self).hir),
            depth + old(self).seen@.dom().len() >= addresses(),
            from <= 0xff_0000_0000,
            to + ty.words() * WORD <= old(self).out@.len(),
        ensures
            r is Ok ==> final(self).follows(*old(self)),
            match r {
                Ok(_) => place(
                    *old(self).hir,
                    old(self).memory@,
                    *ty,
                    from as int,
                    to as int,
                    old(self).image(),
                    depth,
                ) == Ok::<Image, CaptureError>(final(self).image()),
                Err(e) => place(
                    *old(self).hir,
                    old(self).memory@,
                    *ty,
                    from as int,
                    to as int,
                    old(self).image(),
                    depth,
                ) == Err::<Image, CaptureError>(e),
            },
        decreases depth, 1nat,
    {
        let held: Held<'a> = match self.hold(ty, from) {
            Ok(held) => held,
            Err(e) => {
                return Err(e);
            },
        };
        // Only a value that was never built is null, and there is no way to
        // write one; the zero is carried through.
        let mut child: Option<u32> = None;
        if let Some((link, shift)) = held.link {
            let ptr: u32 = match self.read_u32(from + shift) {
                Ok(ptr) => ptr,
                Err(e) => {
                    return Err(e);
                },
            };
            if ptr != 0 {
                match self.object(link, ptr, Ghost(depth)) {
                    Ok(at) => {
                        child = Some(at);
                    },
                    Err(e) => {
                        return Err(e);
                    },
                }
            }
        }
        // A scalar needs no interpretation: the bytes in the new arena are the
        // bytes in the old one.
        if held.copy > 0 {
            assert(from + held.copy <= self.memory.len());
            let count: usize = held.copy as usize;
            copy_bytes(&mut self.out, to as usize, self.memory, from as usize, count);
        }
        if let (Some(at), Some((_, shift))) = (child, held.link) {
            put_u32(&mut self.out, (to + shift) as usize, at);
            self.relocations.push((to + shift) as u32);
        }
        Ok(())
    }

    /// What the place of type `ty` at `from` holds.
    ///
    /// An `Option` or a `Result` is two words: the tag, then the payload. Which
    /// type the payload has depends on the tag, so the tag is read. A pointer
    /// was zero-extended into its slot, so the low four bytes are all of it.
    fn hold(&self, ty: &'a Ty, from: u64) -> (r: Result<Held<'a>, CaptureError>)
        requires
            ty.known(*self.hir),
            from <= 0xff_0000_0000,
        ensures
            match r {
                Ok(held) => {
                    &&& cell(*self.hir, self.memory@, *ty, from as int) == Ok::<Cell, CaptureError>(
                        held.cell(),
                    )
                    &&& held.copy == 0 || (held.copy == ty.words() * WORD && from + held.copy
                        <= self.memory@.len())
                    &&& held.link matches Some((link, shift)) ==> {
                        &&& link.known(*self.hir)
                        &&& shift + 8 <= ty.words() * WORD
                        &&& from + shift + 4 <= self.memory@.len()
                    }
                },
                Err(e) => cell(*self.hir, self.memory@, *ty, from as int) == Err::<
                    Cell,
                    CaptureError,
                >(e),
            },
    {
        let size: u64 = words(ty) * WORD;
        let live: &'a Ty = match ty {
            // Nothing was stored, so nothing is read.
            Ty::Unit | Ty::Node | Ty::Never | Ty::Error => {
                return Ok(Held { copy: 0, link: None });
            },
            Ty::Option(inner) => match self.read_u32(from) {
                Ok(tag) => if tag == 0 {
                    &**inner
                } else {
                    &Ty::Unit
                },
                Err(e) => {
                    return Err(e);
                },
            },
            Ty::Result(ok, err) => match self.read_u32(from) {
                Ok(tag) => if tag == 0 {
                    &**ok
                } else {
                    &**err
                },
                Err(e) => {
                    return Err(e);
                },
            },
            _ => if self.is_link(ty) {
                return match self.read_u32(from) {
                    Ok(_) => Ok(Held { copy: 0, link: Some((ty, 0)) }),
                    Err(e) => Err(e),
                };
            } else {
                &Ty::Unit
            },
        };
        if !self.inside(from, size) {
            return Err(CaptureError::Past { at: from, len: size });
        }
        if self.is_link(live) {
            Ok(Held { copy: size, link: Some((live, WORD)) })
        } else {
            Ok(Held { copy: size, link: None })
        }
    }

    /// What the object of type `ty` at `ptr` looks like.
    fn find(&self, ty: &'a Ty, ptr: u32) -> (r: Result<Found<'a>, CaptureError>)
        requires
            self.hir.valid(),
            ty.known(*self.hir),
        ensures
            match r {
                Ok(found) => found.valid(*self.hir) && outline(*self.hir, self.memory@, *ty, ptr)
                    == Ok::<Outline, CaptureError>(found.outline()),
                Err(e) => outline(*self.hir, self.memory@, *ty, ptr)
                    == Err::<Outline, CaptureError>(e),
            },
    {
        match ty {
            Ty::Str => {
                let len: u32 = match self.read_u32(ptr as u64) {
                    Ok(value) => value,
                    Err(e) => {
                        return Err(e);
                    },
                };
                let size: u64 = STR_HEADER + len as u64;
                Ok(Found { size, head: size, parts: Parts::Nothing })
            },
            Ty::List(elem) => {
                let len: u32 = match self.read_u32(ptr as u64) {
                    Ok(value) => value,
                    Err(e) => {
                        return Err(e);
                    },
                };
                let step: u64 = stride(elem);
                assert(step * len <= 16 * 0xffff_ffff) by (nonlinear_arith)
                    requires
                        step <= 16,
                        len <= 0xffff_ffff,
                ;
                Ok(
                    Found {
                        size: LIST_HEADER + step * len as u64,
                        head: 4,
                        parts: Parts::Elements { ty: &**elem, count: len },
                    },
                )
            },
            Ty::Record(id) => {
                let def = &self.hir.records[id.0 as usize];
                Ok(
                    Found {
                        size: record_size(def),
                        head: 0,
                        parts: Parts::Fields { fields: &def.fields, start: 0 },
                    },
                )
            },
            Ty::Sum(id) => {
                let def = &self.hir.sums[id.0 as usize];
                let tag: u32 = match self.read_u32(ptr as u64) {
                    Ok(value) => value,
                    Err(e) => {
                        return Err(e);
                    },
                };
                if tag as usize >= def.variants.len() {
                    return Err(CaptureError::NoVariant { sum: *id, tag });
                }
                // The whole width of the type, not of this variant: a narrow
                // variant still occupies the widest one's room.
                Ok(
                    Found {
                        size: boxed_sum_size(def),
                        head: 4,
                        parts: Parts::Fields {
                            fields: &def.variants[tag as usize].fields,
                            start: WORD,
                        },
                    },
                )
            },
            _ => Err(CaptureError::NotBoxed { ty: ty.copied() }),
        }
    }

    /// Whether a value of type `ty` is a pointer to an object.
    fn is_link(&self, ty: &Ty) -> (r: bool)
        requires
            ty.known(*self.hir),
        ensures
            r == links(*self.hir, *ty),
    {
        if let Ty::Sum(id) = ty {
            !is_bare_tag(&self.hir.sums[id.0 as usize])
        } else {
            is_boxed(ty)
        }
    }

    /// Makes room for an object, rounded up to a whole word.
    fn reserve(&mut self, size: u64) -> (r: Option<u32>)
        requires
            old(self).valid(),
            size <= 8 + 16 * 0x1_0000_0000,
        ensures
            match r {
                Some(at) => {
                    &&& at == old(self).out@.len()
                    &&& at + padded(size as nat) <= u32::MAX
                    &&& final(self).out@ == old(self).out@ + Seq::new(
                        padded(size as nat),
                        |i: int| 0u8,
                    )
                    &&& final(self).hir == old(self).hir
                    &&& final(self).memory == old(self).memory
                    &&& final(self).relocations == old(self).relocations
                    &&& final(self).seen == old(self).seen
                    &&& final(self).kinds == old(self).kinds
                },
                None => old(self).out@.len() + padded(size as nat) > u32::MAX,
            },
    {
        let at: u64 = self.out.len() as u64;
        let room: u64 = (size + 7) / 8 * 8;
        if at + room > 0xffff_ffff {
            return None;
        }
        let ghost before = *self;
        for i in 0..room
            invariant
                self.out@ == before.out@ + Seq::new(i as nat, |k: int| 0u8),
                self.hir == before.hir,
                self.memory == before.memory,
                self.relocations == before.relocations,
                self.seen == before.seen,
                self.kinds == before.kinds,
        {
            self.out.push(0);
            assert(self.out@ =~= before.out@ + Seq::new((i + 1) as nat, |k: int| 0u8));
        }
        Some(at as u32)
    }

    /// Whether `len` bytes at `at` are inside the arena.
    fn inside(&self, at: u64, len: u64) -> (r: bool)
        requires
            at + len <= u64::MAX,
        ensures
            r == (at + len <= self.memory@.len()),
    {
        at + len <= self.memory.len() as u64
    }

    fn read_u32(&self, at: u64) -> (r: Result<u32, CaptureError>)
        ensures
            match r {
                Ok(value) => at + 4 <= self.memory@.len() && value == le32(self.memory@, at as int),
                Err(e) => at + 4 > self.memory@.len() && e == (CaptureError::Past { at, len: 4 }),
            },
    {
        match read_u32(self.memory, at) {
            Some(value) => Ok(value),
            None => Err(CaptureError::Past { at, len: 4 }),
        }
    }
}

/// The bytes at an object's start are inside it.
pub(crate) proof fn lemma_head_fits(hir: Hir, memory: Seq<u8>, ty: Ty, ptr: u32)
    requires
        outline(hir, memory, ty, ptr) is Ok,
    ensures
        ({
            let o = outline(hir, memory, ty, ptr)->Ok_0;
            o.head <= o.size <= padded(o.size)
        }),
{
    match ty {
        Ty::List(elem) => {
            let count = le32(memory, ptr as int) as int;
            let w = (elem.words() * WORD) as int;
            assert(w * count >= 0) by (nonlinear_arith)
                requires
                    w >= 0,
                    count >= 0,
            ;
        },
        _ => {},
    }
}

/// Walks the state out of `memory`, starting from the state global's value.
pub fn capture(hir: &Hir, state: &Ty, shape: &str, memory: &[u8], root: Val) -> (r: Result<
    Snapshot,
    CaptureError,
>)
    requires
        hir.valid(),
        state.known(*hir),
    ensures
        match (r, lifted(*hir, *state, memory@, root)) {
            (Ok(snapshot), Ok((root, image))) => {
                &&& snapshot.shape@ == shape@
                &&& snapshot.bytes@ == image.bytes
                &&& snapshot.relocations@ == image.sites
                &&& snapshot.root == root
            },
            (Err(e), Err(f)) => e == f,
            _ => false,
        },
{
    let mut walker = Walker {
        hir,
        memory,
        out: Vec::new(),
        relocations: Vec::new(),
        seen: HashMap::new(),
        kinds: Ghost(Map::empty()),
    };
    assert(walker.image() == empty_image());
    let root: Root = match state {
        Ty::Int => match root {
            Val::I64(value) => Root::I64(value),
            _ => {
                return Err(CaptureError::Global { found: root, expected: GlobalKind::I64 });
            },
        },
        Ty::Float => match root {
            Val::F64(bits) => Root::F64Bits(bits),
            _ => {
                return Err(CaptureError::Global { found: root, expected: GlobalKind::F64 });
            },
        },
        // A two-word state never reaches a global.
        Ty::Unit | Ty::Node | Ty::Never | Ty::Error | Ty::Option(_) | Ty::Result(_, _) => {
            return Err(CaptureError::Unsupported { ty: state.copied() });
        },
        _ => {
            let value: i32 = match root {
                Val::I32(value) => value,
                _ => {
                    return Err(CaptureError::Global { found: root, expected: GlobalKind::I32 });
                },
            };
            if !walker.is_link(state) {
                Root::I32(value)
            } else if value == 0 {
                // Before `init` runs, the global is still zero.
                return Err(CaptureError::NotBuilt);
            } else {
                match walker.object(state, to_pattern32(value), Ghost(addresses())) {
                    Ok(at) => Root::Pointer(at),
                    Err(e) => {
                        return Err(e);
                    },
                }
            }
        },
    };
    Ok(
        Snapshot {
            shape: shape.to_owned(),
            bytes: walker.out,
            relocations: walker.relocations,
            root,
        },
    )
}

/// Reads an actor's state out of its arena.
///
/// The runtime knows *where* the state is and hands over the bytes; what they
/// mean stays on the other side of this trait.
pub trait Snapshots {
    /// The shape a module compiled from this source expects.
    spec fn expected(&self) -> Seq<char>;

    /// `memory` is the actor's whole arena and `root` is its state global,
    /// which is where every value it holds is reachable from.
    fn capture(&self, memory: &[u8], root: Val) -> (r: Result<Snapshot, CaptureError>)
        ensures
            r matches Ok(snapshot) ==> snapshot.shape@ == self.expected(),
    ;

    /// The shape a module compiled from this source expects.
    fn shape(&self) -> (r: &str)
        ensures
            r@ == self.expected(),
    ;
}

/// Reads one actor's state, for the runtime to call when it needs a snapshot.
///
/// Holds the program the running module was compiled from, which is what makes
/// the snapshot self-describing: the shape travels with the bytes, so the
/// module they are restored into can be checked against them.
pub struct Codec<'a> {
    hir: &'a Hir,
    state: &'a Ty,
    shape: String,
}

impl<'a> Codec<'a> {
    #[verifier::type_invariant]
    spec fn whole(&self) -> bool {
        &&& self.hir.valid()
        &&& self.state.known(*self.hir)
        &&& self.shape@ == written(form(*self.hir, *self.state, Seq::empty()))
    }

    pub closed spec fn program(&self) -> Hir {
        *self.hir
    }

    pub closed spec fn state_type(&self) -> Ty {
        *self.state
    }

    pub fn new(hir: &'a Hir, state: &'a Ty) -> (r: Self)
        requires
            hir.valid(),
            state.known(*hir),
        ensures
            r.program() == *hir,
            r.state_type() == *state,
            r.expected() == written(form(*hir, *state, Seq::empty())),
    {
        let fingerprint = shape(hir, state).to_string();
        Codec { hir, state, shape: fingerprint }
    }

    /// Just the shape: the program behind it is a compiler's worth of detail.
    pub fn describe(&self) -> (r: String)
        ensures
            r@ == "state of "@ + self.expected(),
    {
        let mut out = "state of ".to_owned();
        out.append(self.shape.as_str());
        out
    }
}

impl<'a> Snapshots for Codec<'a> {
    closed spec fn expected(&self) -> Seq<char> {
        self.shape@
    }

    fn capture(&self, memory: &[u8], root: Val) -> (r: Result<Snapshot, CaptureError>)
        ensures
            match (r, lifted(self.program(), self.state_type(), memory@, root)) {
                (Ok(snapshot), Ok((root, image))) => {
                    &&& snapshot.bytes@ == image.bytes
                    &&& snapshot.relocations@ == image.sites
                    &&& snapshot.root == root
                },
                (Err(e), Err(f)) => e == f,
                _ => false,
            },
    {
        proof {
            use_type_invariant(self);
        }
        capture(self.hir, self.state, self.shape.as_str(), memory, root)
    }

    fn shape(&self) -> (r: &str) {
        self.shape.as_str()
    }
}

} // verus!
