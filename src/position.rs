//! `Position`, a position key on its own, with the same arithmetic as [`crate::Pos`],
//! and the `Min` / `Max` bounds of key types.

use vstd::prelude::*;

use crate::fraction::{compare_fractions, fraction_lt, fractions_match, same_fraction};

verus! {

/// A smallest value, used as the left boundary when a key is made before all others.
pub trait Min: Sized {
    fn minimum() -> Self;
}

/// A largest integral value.
pub trait Max: Sized {
    fn maximum() -> Self;
}

/// The smallest denominator of a valid position.
pub const DENOMINATOR_MIN: u64 = 1;

/// A position key: the unreduced fraction `numerator / denominator`, compared as a
/// fraction (`==` by reduced form, `<` by exact value) and added component-wise.
#[derive(Clone, Copy, Debug)]
pub struct Position {
    pub numerator: u64,
    pub denominator: u64,
}

impl Position {
    /// `self` and `other` name the same position.
    pub open spec fn same(self, other: Position) -> bool {
        same_fraction(self.numerator, self.denominator, other.numerator, other.denominator)
    }

    /// `self` lies strictly before `other`.
    pub open spec fn before(self, other: Position) -> bool {
        fraction_lt(self.numerator, self.denominator, other.numerator, other.denominator)
    }

    /// The component-wise sum fits in `u64`.
    pub open spec fn sum_fits(self, other: Position) -> bool {
        self.numerator + other.numerator <= u64::MAX && self.denominator + other.denominator
            <= u64::MAX
    }

    /// Creates a valid position; a zero denominator becomes one.
    pub fn new(numerator: u64, denominator: u64) -> (r: Position)
        ensures
            r.numerator == numerator,
            r.denominator == if denominator < DENOMINATOR_MIN {
                DENOMINATOR_MIN
            } else {
                denominator
            },
    {
        let denominator = if denominator < DENOMINATOR_MIN {
            DENOMINATOR_MIN
        } else {
            denominator
        };
        Position { numerator, denominator }
    }

    /// `1/0`: no valid position, but added to one it raises the numerator by one.
    pub fn n1d0() -> (r: Position)
        ensures
            r == (Position { numerator: 1, denominator: 0 }),
    {
        Position { numerator: 1, denominator: 0 }
    }

    /// The component-wise sum of two positions, their mediant.
    pub fn mid(first: Position, second: Position) -> (r: Position)
        requires
            first.sum_fits(second),
        ensures
            r.numerator == first.numerator + second.numerator,
            r.denominator == first.denominator + second.denominator,
    {
        Position {
            numerator: first.numerator + second.numerator,
            denominator: first.denominator + second.denominator,
        }
    }
}

impl Min for Position {
    /// The position `0/1`.
    fn minimum() -> (r: Position)
        ensures
            r == (Position { numerator: 0, denominator: 1 }),
    {
        Position { numerator: 0, denominator: 1 }
    }
}

impl Max for Position {
    /// The position `u64::MAX/1`.
    fn maximum() -> (r: Position)
        ensures
            r == (Position { numerator: u64::MAX, denominator: 1 }),
    {
        Position { numerator: u64::MAX, denominator: 1 }
    }
}

impl core::ops::AddAssign for Position {
    /// Adds numerators and denominators separately.
    fn add_assign(&mut self, other: Position)
        requires
            old(self).sum_fits(other),
        ensures
            final(self).numerator == old(self).numerator + other.numerator,
            final(self).denominator == old(self).denominator + other.denominator,
    {
        self.numerator = self.numerator + other.numerator;
        self.denominator = self.denominator + other.denominator;
    }
}

impl PartialEq for Position {
    fn eq(&self, other: &Position) -> (r: bool) {
        fractions_match(self.numerator, self.denominator, other.numerator, other.denominator)
    }
}

impl vstd::std_specs::cmp::PartialEqSpecImpl for Position {
    open spec fn obeys_eq_spec() -> bool {
        true
    }

    open spec fn eq_spec(&self, other: &Position) -> bool {
        self.same(*other)
    }
}

impl PartialOrd for Position {
    fn partial_cmp(&self, other: &Position) -> (r: Option<core::cmp::Ordering>) {
        Some(
            compare_fractions(self.numerator, self.denominator, other.numerator, other.denominator),
        )
    }
}

impl vstd::std_specs::cmp::PartialOrdSpecImpl for Position {
    open spec fn obeys_partial_cmp_spec() -> bool {
        true
    }

    open spec fn partial_cmp_spec(&self, other: &Position) -> Option<core::cmp::Ordering> {
        if self.before(*other) {
            Some(core::cmp::Ordering::Less)
        } else if other.before(*self) {
            Some(core::cmp::Ordering::Greater)
        } else {
            Some(core::cmp::Ordering::Equal)
        }
    }
}

} // verus!
