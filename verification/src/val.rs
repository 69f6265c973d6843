//! A WASM value, as it crosses between host and guest.

use vstd::prelude::*;

verus! {

/// A value in a WASM global, argument or result. Floats are their bits, so
/// that a value can be compared.
#[derive(Clone, Copy, Debug, PartialEq, Eq, Structural)]
pub enum Val {
    I32(i32),
    I64(i64),
    F32(u32),
    F64(u64),
    /// A vector or a reference, which no Strand type is carried by.
    Other,
}

impl Val {
    /// The `i32` inside.
    pub fn unwrap_i32(self) -> (r: i32)
        requires
            self is I32,
        ensures
            self == Val::I32(r),
    {
        match self {
            Val::I32(value) => value,
            _ => 0,
        }
    }

    /// The `i64` inside.
    pub fn unwrap_i64(self) -> (r: i64)
        requires
            self is I64,
        ensures
            self == Val::I64(r),
    {
        match self {
            Val::I64(value) => value,
            _ => 0,
        }
    }

    /// The bits of the `f64` inside.
    pub fn unwrap_f64_bits(self) -> (r: u64)
        requires
            self is F64,
        ensures
            self == Val::F64(r),
    {
        match self {
            Val::F64(bits) => bits,
            _ => 0,
        }
    }
}

} // verus!
