use vstd::prelude::*;

verus! {

/// One quadrant of a square node. Its index in a node's child list is two
/// bits: bit 0 is set for the half of larger x, bit 1 for the half of larger y.
#[derive(Copy, Clone, Debug, PartialEq, Eq, Structural)]
pub enum Quadrant {
    NorthWest,
    NorthEast,
    SouthWest,
    SouthEast,
}

/// Bit of a quadrant index that marks the half of larger x.
pub const X_BIT: u8 = 1;

/// Bit of a quadrant index that marks the half of larger y.
pub const Y_BIT: u8 = 2;

impl Quadrant {
    /// True for the two quadrants on the side of larger x.
    pub open spec fn high_x(self) -> bool {
        self == Quadrant::NorthEast || self == Quadrant::SouthEast
    }

    /// True for the two quadrants on the side of larger y.
    pub open spec fn high_y(self) -> bool {
        self == Quadrant::SouthWest || self == Quadrant::SouthEast
    }

    /// The two-bit index of the quadrant.
    pub open spec fn spec_index(self) -> nat {
        (if self.high_x() { 1nat } else { 0nat }) + (if self.high_y() { 2nat } else { 0nat })
    }

    /// The quadrant whose half in x is given by `hx` and in y by `hy`.
    pub open spec fn of_halves(hx: bool, hy: bool) -> Quadrant {
        if hy {
            if hx { Quadrant::SouthEast } else { Quadrant::SouthWest }
        } else {
            if hx { Quadrant::NorthEast } else { Quadrant::NorthWest }
        }
    }

    /// The index of this quadrant in a node's child list.
    pub fn index(&self) -> (r: u8)
        ensures
            r as nat == self.spec_index(),
            r < 4,
    {
        match self {
            Quadrant::NorthWest => 0,
            Quadrant::NorthEast => X_BIT,
            Quadrant::SouthWest => Y_BIT,
            Quadrant::SouthEast => {
                assert(1u8 | 2u8 == 3u8) by (bit_vector);
                X_BIT | Y_BIT
            },
        }
    }

    /// The quadrant of the given index.
    pub fn from_index(bits: u8) -> (r: Quadrant)
        requires
            bits < 4,
        ensures
            r.spec_index() == bits as nat,
            r == Quadrant::of_halves(bits % 2 == 1, bits >= 2),
    {
        if bits == 0 {
            Quadrant::NorthWest
        } else if bits == 1 {
            Quadrant::NorthEast
        } else if bits == 2 {
            Quadrant::SouthWest
        } else {
            Quadrant::SouthEast
        }
    }

    /// The offset of a child in this quadrant from its parent's lower corner,
    /// in units of half the parent's scale: 0 or 1 on each axis.
    pub fn offset(&self) -> (r: (u32, u32))
        ensures
            r.0 == (if self.high_x() { 1u32 } else { 0u32 }),
            r.1 == (if self.high_y() { 1u32 } else { 0u32 }),
    {
        let b: u8 = self.index();
        assert(b & X_BIT > 0 <==> self.high_x()) by {
            assert(b == 0 || b == 1 || b == 2 || b == 3);
            assert(0u8 & 1u8 == 0u8 && 1u8 & 1u8 == 1u8 && 2u8 & 1u8 == 0u8 && 3u8 & 1u8 == 1u8)
                by (bit_vector);
        }
        assert(b & Y_BIT > 0 <==> self.high_y()) by {
            assert(b == 0 || b == 1 || b == 2 || b == 3);
            assert(0u8 & 2u8 == 0u8 && 1u8 & 2u8 == 0u8 && 2u8 & 2u8 == 2u8 && 3u8 & 2u8 == 2u8)
                by (bit_vector);
        }
        let hx: u32 = if b & X_BIT > 0 { 1 } else { 0 };
        let hy: u32 = if b & Y_BIT > 0 { 1 } else { 0 };
        (hx, hy)
    }

    /// The quadrant into which a point falls, given its offset from the lower
    /// corner of a node of the given scale. An axis goes to the upper half
    /// only when the offset is strictly greater than half the scale; a tie
    /// stays in the lower half.
    pub fn from_offset(dx: i64, dy: i64, scale: u64) -> (r: Quadrant)
        ensures
            r.high_x() == (2 * dx > scale),
            r.high_y() == (2 * dy > scale),
            r == Quadrant::of_halves(2 * dx > scale, 2 * dy > scale),
    {
        let hx: bool = 2 * (dx as i128) > scale as i128;
        let hy: bool = 2 * (dy as i128) > scale as i128;
        let bits_x: u8 = if hx { X_BIT } else { 0 };
        let bits_y: u8 = if hy { Y_BIT } else { 0 };
        let bits: u8 = bits_x | bits_y;
        assert(bits == bits_x + bits_y) by {
            assert(0u8 | 0u8 == 0u8 && 1u8 | 0u8 == 1u8 && 0u8 | 2u8 == 2u8 && 1u8 | 2u8 == 3u8)
                by (bit_vector);
        }
        Quadrant::from_index(bits)
    }
}

} // verus!
