//! Hands and finger groups.

use vstd::prelude::*;

verus! {

/// The hand that presses a key.  `Other` stands for a slot outside the grid.
#[derive(Debug, PartialEq, Eq, Structural, Clone, Copy)]
pub enum Hand {
    Left,
    Right,
    Other,
}

impl Hand {
    /// True when both values name the same real hand.  `Other` is never the
    /// same hand as anything, itself included.
    pub fn same(&self, other: Hand) -> (r: bool)
        ensures
            r == ((*self == Hand::Left && other == Hand::Left) || (*self == Hand::Right && other
                == Hand::Right)),
    {
        (matches!(self, Hand::Left) && matches!(other, Hand::Left)) || (matches!(self, Hand::Right)
            && matches!(other, Hand::Right))
    }
}

/// A set of finger groups, one bit per group.  A key may belong to more than
/// one group, which is how overlapping reach is expressed.
#[derive(Debug, Clone, Copy, PartialEq, Eq, Structural)]
pub struct Finger {
    bits: u8,
}

impl Finger {
    /// Index finger.
    #[allow(non_snake_case)]
    pub fn I() -> (r: Finger)
        ensures
            r@ == 0b0001,
    {
        Finger { bits: 0b0001 }
    }

    /// Middle finger.
    #[allow(non_snake_case)]
    pub fn M() -> (r: Finger)
        ensures
            r@ == 0b0010,
    {
        Finger { bits: 0b0010 }
    }

    /// Ring finger.
    #[allow(non_snake_case)]
    pub fn R() -> (r: Finger)
        ensures
            r@ == 0b0100,
    {
        Finger { bits: 0b0100 }
    }

    /// Little finger.
    #[allow(non_snake_case)]
    pub fn P() -> (r: Finger)
        ensures
            r@ == 0b1000,
    {
        Finger { bits: 0b1000 }
    }

    /// No finger group.
    pub fn empty() -> (r: Finger)
        ensures
            r@ == 0,
    {
        Finger { bits: 0 }
    }

    /// The groups as a bit pattern.
    pub closed spec fn view(&self) -> u8 {
        self.bits
    }

    pub fn bits(&self) -> (r: u8)
        ensures
            r == self@,
    {
        self.bits
    }

    pub fn is_empty(&self) -> (r: bool)
        ensures
            r == (self@ == 0),
    {
        self.bits == 0
    }

    /// The groups that both sets hold.
    pub fn intersection(self, other: Finger) -> (r: Finger)
        ensures
            r@ == self@ & other@,
    {
        Finger { bits: self.bits & other.bits }
    }

    /// The groups that either set holds.
    pub fn union(self, other: Finger) -> (r: Finger)
        ensures
            r@ == self@ | other@,
    {
        Finger { bits: self.bits | other.bits }
    }

    /// True when the two sets share a group.
    pub open spec fn spec_intersects(self, other: Finger) -> bool {
        self@ & other@ != 0
    }

    #[verifier::when_used_as_spec(spec_intersects)]
    pub fn intersects(self, other: Finger) -> (r: bool)
        ensures
            r == self.spec_intersects(other),
    {
        self.bits & other.bits != 0
    }
}

impl Default for Finger {
    fn default() -> (r: Finger)
        ensures
            r@ == 0,
    {
        Finger::empty()
    }
}

} // verus!
