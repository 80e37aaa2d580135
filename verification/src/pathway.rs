//! Immigration pathway flags carried by an invitation round.

use crate::strutil::{contains_str, text_contains};
use vstd::prelude::*;

verus! {

/// Bit set of the pathways a round draws from.
#[derive(Debug, Clone, Copy, PartialEq, Eq, PartialOrd, Ord, Hash, Structural)]
pub struct Pathway(u32);

impl Pathway {
    /// The provincial-nominee flag is set.
    pub closed spec fn spec_is_pnp(self) -> bool {
        self.0 & 0x0001 != 0
    }

    /// The Canadian-experience flag is set.
    pub closed spec fn spec_is_cec(self) -> bool {
        self.0 & 0x0010 != 0
    }

    /// The federal-skilled-worker flag is set.
    pub closed spec fn spec_is_fsw(self) -> bool {
        self.0 & 0x0100 != 0
    }

    /// The federal-skilled-trades flag is set.
    pub closed spec fn spec_is_fst(self) -> bool {
        self.0 & 0x1000 != 0
    }

    pub fn is_pnp(&self) -> (r: bool)
        ensures
            r == self.spec_is_pnp(),
    {
        (self.0 & 0x0001) != 0
    }

    pub fn is_cec(&self) -> (r: bool)
        ensures
            r == self.spec_is_cec(),
    {
        (self.0 & 0x0010) != 0
    }

    pub fn is_fsw(&self) -> (r: bool)
        ensures
            r == self.spec_is_fsw(),
    {
        (self.0 & 0x0100) != 0
    }

    pub fn is_fst(&self) -> (r: bool)
        ensures
            r == self.spec_is_fst(),
    {
        (self.0 & 0x1000) != 0
    }

    /// Reads the pathway flags out of the feed's free-text program
    /// list: a flag is set exactly when the program's name occurs in
    /// the text.
    pub fn parse(raw: &str) -> (r: Pathway)
        ensures
            r.spec_is_fsw() == text_contains(raw@, "Federal Skilled Worker"@),
            r.spec_is_cec() == text_contains(raw@, "Canadian Experience Class"@),
            r.spec_is_fst() == text_contains(raw@, "Federal Skilled Trades"@),
            r.spec_is_pnp() == text_contains(raw@, "Provincial Nominee Program"@),
    {
        let a: u32 = if contains_str(raw, "Federal Skilled Worker") {
            0x0100
        } else {
            0
        };
        let b: u32 = if contains_str(raw, "Canadian Experience Class") {
            0x0010
        } else {
            0
        };
        let c: u32 = if contains_str(raw, "Federal Skilled Trades") {
            0x1000
        } else {
            0
        };
        let d: u32 = if contains_str(raw, "Provincial Nominee Program") {
            0x0001
        } else {
            0
        };
        let x = a | b | c | d;
        proof {
            assert((x & 0x0100 != 0) == (a == 0x0100) && (x & 0x0010 != 0) == (b == 0x0010) && (x
                & 0x1000 != 0) == (c == 0x1000) && (x & 0x0001 != 0) == (d == 0x0001))
                by (bit_vector)
                requires
                    x == a | b | c | d,
                    a == 0x0100u32 || a == 0u32,
                    b == 0x0010u32 || b == 0u32,
                    c == 0x1000u32 || c == 0u32,
                    d == 0x0001u32 || d == 0u32,
            ;
        }
        Pathway(x)
    }

    /// At least one recognised pathway is present.
    pub fn is_valid(&self) -> (r: bool)
        ensures
            r == (self.spec_is_cec() || self.spec_is_fst() || self.spec_is_fsw()
                || self.spec_is_pnp()),
    {
        self.is_cec() || self.is_fst() || self.is_fsw() || self.is_pnp()
    }
}

} // verus!
