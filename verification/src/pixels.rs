//! Geometry in whole pixels.
//!
//! Coordinates are usually the machine's floats. This is the integer number
//! type: it counts whole pixels, stops at the ends of its range instead of
//! passing them, and divides anything by nothing to nothing, so every
//! operation is defined on all of its values.

use core::cmp::Ordering;
use core::ops::{Add, Div, Mul, Rem, Sub};

use vstd::prelude::*;
use vstd::std_specs::cmp::{PartialEqSpecImpl, PartialOrdSpecImpl};
use vstd::std_specs::convert::FromSpecImpl;
use vstd::std_specs::ops::{AddSpecImpl, DivSpecImpl, MulSpecImpl, RemSpecImpl, SubSpecImpl};

use crate::flatten::overlaps_narrow;
use crate::paint::overlap_of;
use crate::scalar::exact;
use crate::scene::Bounds;

verus! {

/// A whole number of pixels.
#[derive(Debug, Clone, Copy)]
pub struct Pixels(pub i32);

/// The nearest number of pixels there is.
pub open spec fn nearest(value: int) -> Pixels {
    if value > i32::MAX {
        Pixels(i32::MAX)
    } else if value < i32::MIN {
        Pixels(i32::MIN)
    } else {
        Pixels(value as i32)
    }
}

fn saturate(value: i64) -> (r: Pixels)
    ensures
        r == nearest(value as int),
{
    if value > 0x7fff_ffff {
        Pixels(0x7fff_ffff)
    } else if value < -0x8000_0000 {
        Pixels(-0x8000_0000)
    } else {
        Pixels(value as i32)
    }
}

impl PartialEq for Pixels {
    fn eq(&self, other: &Self) -> (r: bool) {
        self.0 == other.0
    }
}

impl PartialEqSpecImpl for Pixels {
    open spec fn obeys_eq_spec() -> bool {
        true
    }

    open spec fn eq_spec(&self, other: &Self) -> bool {
        self.0 == other.0
    }
}

impl PartialOrd for Pixels {
    fn partial_cmp(&self, other: &Self) -> (r: Option<Ordering>) {
        if self.0 < other.0 {
            Some(Ordering::Less)
        } else if self.0 > other.0 {
            Some(Ordering::Greater)
        } else {
            Some(Ordering::Equal)
        }
    }
}

impl PartialOrdSpecImpl for Pixels {
    open spec fn obeys_partial_cmp_spec() -> bool {
        true
    }

    open spec fn partial_cmp_spec(&self, other: &Self) -> Option<Ordering> {
        if self.0 < other.0 {
            Some(Ordering::Less)
        } else if self.0 > other.0 {
            Some(Ordering::Greater)
        } else {
            Some(Ordering::Equal)
        }
    }
}

impl From<u16> for Pixels {
    fn from(value: u16) -> (r: Self) {
        saturate(value as i64)
    }
}

impl FromSpecImpl<u16> for Pixels {
    open spec fn obeys_from_spec() -> bool {
        true
    }

    open spec fn from_spec(value: u16) -> Self {
        nearest(value as int)
    }
}

impl Add for Pixels {
    type Output = Pixels;

    fn add(self, other: Self) -> (r: Self) {
        saturate(self.0 as i64 + other.0 as i64)
    }
}

impl AddSpecImpl for Pixels {
    open spec fn obeys_add_spec() -> bool {
        true
    }

    open spec fn add_req(self, other: Self) -> bool {
        true
    }

    open spec fn add_spec(self, other: Self) -> Self {
        nearest(self.0 + other.0)
    }
}

impl Sub for Pixels {
    type Output = Pixels;

    fn sub(self, other: Self) -> (r: Self) {
        saturate(self.0 as i64 - other.0 as i64)
    }
}

impl SubSpecImpl for Pixels {
    open spec fn obeys_sub_spec() -> bool {
        true
    }

    open spec fn sub_req(self, other: Self) -> bool {
        true
    }

    open spec fn sub_spec(self, other: Self) -> Self {
        nearest(self.0 - other.0)
    }
}

impl Mul for Pixels {
    type Output = Pixels;

    fn mul(self, other: Self) -> (r: Self) {
        let (a, b) = (self.0 as i64, other.0 as i64);
        assert(-0x4000_0000_0000_0000 <= a * b <= 0x4000_0000_0000_0000) by (nonlinear_arith)
            requires
                -0x8000_0000 <= a <= 0x7fff_ffff,
                -0x8000_0000 <= b <= 0x7fff_ffff,
        ;
        saturate(a * b)
    }
}

impl MulSpecImpl for Pixels {
    open spec fn obeys_mul_spec() -> bool {
        true
    }

    open spec fn mul_req(self, other: Self) -> bool {
        true
    }

    open spec fn mul_spec(self, other: Self) -> Self {
        nearest(self.0 * other.0)
    }
}

/// A quotient, towards zero.
pub open spec fn quotient(a: int, b: int) -> int {
    if b == 0 {
        0
    } else if (a < 0) == (b < 0) {
        magnitude(a) / magnitude(b)
    } else {
        -(magnitude(a) / magnitude(b))
    }
}

/// How far a number is from zero.
pub open spec fn magnitude(a: int) -> int {
    if a < 0 {
        -a
    } else {
        a
    }
}

impl Div for Pixels {
    type Output = Pixels;

    fn div(self, other: Self) -> (r: Self) {
        if other.0 == 0 {
            return saturate(0);
        }
        let a: i64 = if self.0 < 0 {
            -(self.0 as i64)
        } else {
            self.0 as i64
        };
        let b: i64 = if other.0 < 0 {
            -(other.0 as i64)
        } else {
            other.0 as i64
        };
        let size: i64 = a / b;
        assert(0 <= a / b <= a) by (nonlinear_arith)
            requires
                a >= 0,
                b > 0,
        ;
        if (self.0 < 0) == (other.0 < 0) {
            saturate(size)
        } else {
            saturate(-size)
        }
    }
}

impl DivSpecImpl for Pixels {
    open spec fn obeys_div_spec() -> bool {
        true
    }

    open spec fn div_req(self, other: Self) -> bool {
        true
    }

    open spec fn div_spec(self, other: Self) -> Self {
        nearest(quotient(self.0 as int, other.0 as int))
    }
}

/// What a division towards zero leaves, with the sign of what was divided.
pub open spec fn remainder(a: int, b: int) -> int {
    if b == 0 {
        0
    } else if a < 0 {
        -(magnitude(a) % magnitude(b))
    } else {
        magnitude(a) % magnitude(b)
    }
}

impl Rem for Pixels {
    type Output = Pixels;

    fn rem(self, other: Self) -> (r: Self) {
        if other.0 == 0 {
            return saturate(0);
        }
        let a: i64 = if self.0 < 0 {
            -(self.0 as i64)
        } else {
            self.0 as i64
        };
        let b: i64 = if other.0 < 0 {
            -(other.0 as i64)
        } else {
            other.0 as i64
        };
        if self.0 < 0 {
            saturate(-(a % b))
        } else {
            saturate(a % b)
        }
    }
}

impl RemSpecImpl for Pixels {
    open spec fn obeys_rem_spec() -> bool {
        true
    }

    open spec fn rem_req(self, other: Self) -> bool {
        true
    }

    open spec fn rem_spec(self, other: Self) -> Self {
        nearest(remainder(self.0 as int, other.0 as int))
    }
}

/// Whole pixels are numbers geometry can be computed in.
pub proof fn whole_pixels_are_exact()
    ensures
        exact::<Pixels>(),
{
}

/// In whole pixels a point in the overlap of two rectangles is in both of
/// them, even where they reach past the end of the range.
pub proof fn whole_pixels_overlap_in_both()
    ensures
        overlaps_narrow::<Pixels>(),
{
}

/// In whole pixels a point that is in two rectangles is in their overlap, where
/// neither starts before the edge of the screen.
pub proof fn whole_pixels_in_both_are_in_the_overlap(
    a: Bounds<Pixels>,
    b: Bounds<Pixels>,
    x: Pixels,
    y: Pixels,
)
    requires
        0 <= a.x.0,
        0 <= a.y.0,
        0 <= b.x.0,
        0 <= b.y.0,
        a.covers(x, y),
        b.covers(x, y),
    ensures
        a.meet(b) matches Some(both) && both.covers(x, y),
        overlap_of(a, b).covers(x, y),
{
}

/// In whole pixels what confines a draw call lets nothing through that either
/// region does not.
pub proof fn whole_pixels_are_confined_by_both(
    a: Bounds<Pixels>,
    b: Bounds<Pixels>,
    x: Pixels,
    y: Pixels,
)
    requires
        overlap_of(a, b).covers(x, y),
    ensures
        a.covers(x, y),
        b.covers(x, y),
{
}

/// In whole pixels a point is in a rectangle exactly where it is neither before
/// its first pixel nor past its last, along both axes.
pub proof fn whole_pixels_cover_what_they_count(bounds: Bounds<Pixels>, x: Pixels, y: Pixels)
    requires
        i32::MIN <= bounds.x.0 + bounds.width.0 <= i32::MAX,
        i32::MIN <= bounds.y.0 + bounds.height.0 <= i32::MAX,
    ensures
        bounds.covers(x, y) <==> bounds.x.0 <= x.0 < bounds.x.0 + bounds.width.0 && bounds.y.0
            <= y.0 < bounds.y.0 + bounds.height.0,
{
}

} // verus!
