use vstd::prelude::*;

verus! {

/// What directions can this dock be split in?
#[derive(Copy, Clone, Debug, Eq, PartialEq, Structural)]
pub enum AllowedSplits {
    /// Allow splits in any direction (horizontal and vertical).
    All,
    /// Only allow split in a horizontal directions.
    LeftRightOnly,
    /// Only allow splits in a vertical directions.
    TopBottomOnly,
    /// Don't allow splits at all.
    NoSplits,
}

/// The two-bit code of a set of allowed splits: the high bit allows left/right
/// splits, the low bit top/bottom splits.
pub open spec fn split_bits(a: AllowedSplits) -> u8 {
    match a {
        AllowedSplits::All => 3,
        AllowedSplits::LeftRightOnly => 2,
        AllowedSplits::TopBottomOnly => 1,
        AllowedSplits::NoSplits => 0,
    }
}

impl Default for AllowedSplits {
    /// Splits are allowed in any direction by default.
    fn default() -> (r: Self)
        ensures
            r == AllowedSplits::All,
    {
        AllowedSplits::All
    }
}

impl core::ops::BitAnd for AllowedSplits {
    type Output = Self;

    /// The splits allowed by both operands.
    fn bitand(self, rhs: Self) -> (r: Self) {
        let r = self.intersection(rhs);
        proof {
            let x: u8 = split_bits(self);
            let y: u8 = split_bits(rhs);
            assert(x & y < 4) by (bit_vector)
                requires
                    x < 4,
                    y < 4,
            ;
        }
        r
    }
}

impl vstd::std_specs::ops::BitAndSpecImpl for AllowedSplits {
    open spec fn obeys_bitand_spec() -> bool {
        true
    }

    open spec fn bitand_req(self, rhs: Self) -> bool {
        true
    }

    open spec fn bitand_spec(self, rhs: Self) -> Self {
        splits_of_bits(split_bits(self) & split_bits(rhs))
    }
}

/// The allowed splits whose two-bit code is `bits` (see [`split_bits`]).
pub open spec fn splits_of_bits(bits: u8) -> AllowedSplits {
    if bits == 3 {
        AllowedSplits::All
    } else if bits == 2 {
        AllowedSplits::LeftRightOnly
    } else if bits == 1 {
        AllowedSplits::TopBottomOnly
    } else {
        AllowedSplits::NoSplits
    }
}

impl AllowedSplits {
    /// Create allowed splits from their two-bit code (see [`split_bits`]).
    ///
    /// # Panics
    /// If `bits` is not a two-bit code.
    pub fn from_u8(bits: u8) -> (r: Self)
        requires
            bits < 4,
        ensures
            split_bits(r) == bits,
    {
        match bits {
            3 => AllowedSplits::All,
            2 => AllowedSplits::LeftRightOnly,
            1 => AllowedSplits::TopBottomOnly,
            _ => AllowedSplits::NoSplits,
        }
    }

    /// The two-bit code of these allowed splits (see [`split_bits`]).
    pub fn to_u8(self) -> (r: u8)
        ensures
            r == split_bits(self),
    {
        match self {
            AllowedSplits::All => 3,
            AllowedSplits::LeftRightOnly => 2,
            AllowedSplits::TopBottomOnly => 1,
            AllowedSplits::NoSplits => 0,
        }
    }

    /// The splits allowed by both `self` and `rhs`.
    fn intersection(self, rhs: Self) -> (r: Self)
        ensures
            split_bits(r) == split_bits(self) & split_bits(rhs),
    {
        let a = self.to_u8();
        let b = rhs.to_u8();
        assert(a & b < 4) by (bit_vector)
            requires
                a < 4,
                b < 4,
        ;
        Self::from_u8(a & b)
    }

    /// Whether left/right splits are allowed.
    pub fn allows_left_right(self) -> (r: bool)
        ensures
            r == (self is All || self is LeftRightOnly),
    {
        match self {
            AllowedSplits::All | AllowedSplits::LeftRightOnly => true,
            _ => false,
        }
    }

    /// Whether top/bottom splits are allowed.
    pub fn allows_top_bottom(self) -> (r: bool)
        ensures
            r == (self is All || self is TopBottomOnly),
    {
        match self {
            AllowedSplits::All | AllowedSplits::TopBottomOnly => true,
            _ => false,
        }
    }
}

} // verus!
