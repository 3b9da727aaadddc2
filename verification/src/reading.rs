//! Measured quantities.
use core::cmp::Ordering;
use vstd::prelude::*;

verus! {

/// The bit that carries the sign of a double.
pub const SIGN: u64 = 0x8000_0000_0000_0000;

/// The magnitude of an infinity: every larger magnitude is not a number.
pub const INFINITE: u64 = 0x7ff0_0000_0000_0000;

/// Zero.
pub const ZERO: u64 = 0;

/// One.
pub const ONE: u64 = 0x3ff0_0000_0000_0000;

/// One half.
pub const HALF: u64 = 0x3fe0_0000_0000_0000;

/// Two.
pub const TWO: u64 = 0x4000_0000_0000_0000;

/// The largest finite double: stands for a quantity not measured yet.
pub const UNMEASURED: u64 = 0x7fef_ffff_ffff_ffff;

/// Not a number: shown where there is nothing to show.
pub const ABSENT: u64 = 0x7ff8_0000_0000_0000;

/// A measured quantity, held as the bit pattern of an IEEE 754 double.
#[derive(Clone, Copy, Debug)]
pub struct Reading {
    pub bits: u64,
}

impl Reading {
    pub open spec fn magnitude(self) -> int {
        if self.bits >= SIGN {
            self.bits - SIGN
        } else {
            self.bits as int
        }
    }

    /// Whether the pattern is that of "not a number".
    pub open spec fn is_nan(self) -> bool {
        self.magnitude() > INFINITE
    }

    /// The place of the reading on the number line: readings that are numbers
    /// compare as their positions do, and both zeros stand at the origin.
    pub open spec fn position(self) -> int {
        if self.bits >= SIGN {
            -self.magnitude()
        } else {
            self.magnitude()
        }
    }

    pub open spec fn equals(self, other: Reading) -> bool {
        !self.is_nan() && !other.is_nan() && self.position() == other.position()
    }

    pub open spec fn below(self, other: Reading) -> bool {
        !self.is_nan() && !other.is_nan() && self.position() < other.position()
    }

    pub open spec fn at_least(self, other: Reading) -> bool {
        !self.is_nan() && !other.is_nan() && self.position() >= other.position()
    }
}

impl PartialEq for Reading {
    fn eq(&self, other: &Self) -> (r: bool) {
        match compare(self, other) {
            Some(Ordering::Equal) => true,
            _ => false,
        }
    }
}

impl vstd::std_specs::cmp::PartialEqSpecImpl for Reading {
    open spec fn obeys_eq_spec() -> bool {
        true
    }

    open spec fn eq_spec(&self, other: &Self) -> bool {
        self.equals(*other)
    }
}

fn compare(a: &Reading, b: &Reading) -> (r: Option<Ordering>)
    ensures
        r == (if a.is_nan() || b.is_nan() {
            None::<Ordering>
        } else if a.position() < b.position() {
            Some(Ordering::Less)
        } else if a.position() == b.position() {
            Some(Ordering::Equal)
        } else {
            Some(Ordering::Greater)
        }),
{
    let a_negative = a.bits >= SIGN;
    let b_negative = b.bits >= SIGN;
    let a_magnitude: u64 = if a_negative { a.bits - SIGN } else { a.bits };
    let b_magnitude: u64 = if b_negative { b.bits - SIGN } else { b.bits };
    if a_magnitude > INFINITE || b_magnitude > INFINITE {
        None
    } else if a_magnitude == 0 && b_magnitude == 0 {
        Some(Ordering::Equal)
    } else if a_negative != b_negative {
        if a_negative { Some(Ordering::Less) } else { Some(Ordering::Greater) }
    } else if a_magnitude == b_magnitude {
        Some(Ordering::Equal)
    } else if (a_magnitude < b_magnitude) != a_negative {
        Some(Ordering::Less)
    } else {
        Some(Ordering::Greater)
    }
}

impl PartialOrd for Reading {
    fn partial_cmp(&self, other: &Self) -> (r: Option<Ordering>) {
        compare(self, other)
    }
}

impl vstd::std_specs::cmp::PartialOrdSpecImpl for Reading {
    open spec fn obeys_partial_cmp_spec() -> bool {
        true
    }

    open spec fn partial_cmp_spec(&self, other: &Self) -> Option<Ordering> {
        if self.is_nan() || other.is_nan() {
            None
        } else if self.position() < other.position() {
            Some(Ordering::Less)
        } else if self.position() == other.position() {
            Some(Ordering::Equal)
        } else {
            Some(Ordering::Greater)
        }
    }
}

} // verus!
