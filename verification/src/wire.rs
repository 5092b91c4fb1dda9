//! The wire classes: what a header says of the payload behind it.

use vstd::prelude::*;

verus! {

/// The eight payload shapes a header can announce.
#[derive(Clone, Copy, Debug, PartialEq, Eq, Structural)]
pub enum Wire {
    /// One length byte, then that many payload bytes.
    BLK1,
    /// Two little-endian length bytes, then the payload.
    BLK2,
    /// Four little-endian length bytes, then the payload.
    BLK4,
    /// Exactly eight payload bytes, little-endian.
    QUAD,
    /// Exactly one payload byte.
    INT1,
    /// Exactly two payload bytes, little-endian.
    INT2,
    /// Exactly four payload bytes, little-endian.
    INT4,
    /// Four little-endian count bytes, then that many items tagged 0.
    REPEAT,
}

impl Wire {
    /// The three-bit class number, as it sits in the top of a header byte.
    pub open spec fn class(self) -> int {
        match self {
            Wire::BLK1 => 0,
            Wire::BLK2 => 1,
            Wire::BLK4 => 2,
            Wire::QUAD => 3,
            Wire::INT1 => 4,
            Wire::INT2 => 5,
            Wire::INT4 => 6,
            Wire::REPEAT => 7,
        }
    }

    /// The wire class with a given class number; numbers past 7 have none,
    /// and are mapped to `REPEAT` to keep the function total.
    pub open spec fn of_class(c: int) -> Wire {
        if c == 0 {
            Wire::BLK1
        } else if c == 1 {
            Wire::BLK2
        } else if c == 2 {
            Wire::BLK4
        } else if c == 3 {
            Wire::QUAD
        } else if c == 4 {
            Wire::INT1
        } else if c == 5 {
            Wire::INT2
        } else if c == 6 {
            Wire::INT4
        } else {
            Wire::REPEAT
        }
    }

    /// The class shifted into the high three bits of a byte.
    pub fn bits(self) -> (b: u8)
        ensures
            b == 32 * self.class(),
    {
        match self {
            Wire::BLK1 => 0,
            Wire::BLK2 => 32,
            Wire::BLK4 => 64,
            Wire::QUAD => 96,
            Wire::INT1 => 128,
            Wire::INT2 => 160,
            Wire::INT4 => 192,
            Wire::REPEAT => 224,
        }
    }
}

impl From<u8> for Wire {
    /// The wire class in the top three bits of a header's first byte.
    fn from(v: u8) -> (w: Wire) {
        let class: u8 = v / 32;
        if class == 0 {
            Wire::BLK1
        } else if class == 1 {
            Wire::BLK2
        } else if class == 2 {
            Wire::BLK4
        } else if class == 3 {
            Wire::QUAD
        } else if class == 4 {
            Wire::INT1
        } else if class == 5 {
            Wire::INT2
        } else if class == 6 {
            Wire::INT4
        } else {
            Wire::REPEAT
        }
    }
}

impl vstd::std_specs::convert::FromSpecImpl<u8> for Wire {
    open spec fn obeys_from_spec() -> bool {
        true
    }

    open spec fn from_spec(v: u8) -> Wire {
        Wire::of_class(v as int / 32)
    }
}

} // verus!
