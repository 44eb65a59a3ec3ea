//! `Pos`, the position key that orders the nodes of a sequence.

use vstd::prelude::*;

use crate::fraction::{compare_fractions, fraction_lt, fractions_match, same_fraction};
use crate::position::{Max, Min};

verus! {

/// The smallest denominator of a valid key.
pub const DENOM_MIN: u64 = 1;

/// A position key: the unreduced fraction `num / denom`.
///
/// A valid key has `denom >= 1`; [`Pos::new`] turns a zero denominator into one.
/// Keys are compared as fractions: `==` holds when the two reduced forms agree
/// (`2/1 == 4/2`), and `<` compares the values exactly, each numerator taken over
/// its own denominator, by cross-multiplication in `u128`: no floating point is
/// involved, so no two distinct values ever compare as equal.
/// `+` is not the addition of fractions: it adds numerators and denominators
/// separately, which yields the mediant of two keys.
#[derive(Clone, Copy, Debug)]
pub struct Pos {
    pub num: u64,
    pub denom: u64,
}

impl Min for Pos {
    /// The key `0/1`.
    fn minimum() -> (r: Pos)
        ensures
            r == (Pos { num: 0, denom: 1 }),
    {
        Pos { num: 0, denom: 1 }
    }
}

impl Max for Pos {
    /// The key `u64::MAX/1`.
    fn maximum() -> (r: Pos)
        ensures
            r == (Pos { num: u64::MAX, denom: 1 }),
    {
        Pos { num: u64::MAX, denom: 1 }
    }
}

impl Pos {
    /// `self` and `other` name the same position.
    pub open spec fn same(self, other: Pos) -> bool {
        same_fraction(self.num, self.denom, other.num, other.denom)
    }

    /// `self` lies strictly before `other`.
    pub open spec fn before(self, other: Pos) -> bool {
        fraction_lt(self.num, self.denom, other.num, other.denom)
    }

    /// The component-wise sum of two keys, their mediant.
    pub open spec fn mediant(self, other: Pos) -> Pos {
        Pos { num: (self.num + other.num) as u64, denom: (self.denom + other.denom) as u64 }
    }

    /// The component-wise sum fits in `u64`.
    pub open spec fn mediant_fits(self, other: Pos) -> bool {
        self.num + other.num <= u64::MAX && self.denom + other.denom <= u64::MAX
    }

    /// Creates a valid key; a zero denominator becomes one.
    pub fn new(num: u64, denom: u64) -> (r: Pos)
        ensures
            r.num == num,
            r.denom == if denom < DENOM_MIN { DENOM_MIN } else { denom },
    {
        if denom < DENOM_MIN {
            Pos { num, denom: DENOM_MIN }
        } else {
            Pos { num, denom }
        }
    }

    /// `1/0`: no valid key, but added to a key it raises the numerator by one.
    pub fn n1d0() -> (r: Pos)
        ensures
            r == (Pos { num: 1, denom: 0 }),
    {
        Pos { num: 1, denom: 0 }
    }

    /// The mediant of two keys, which lies strictly between them.
    pub fn mid(first: Pos, second: Pos) -> (r: Pos)
        requires
            first.mediant_fits(second),
        ensures
            r == first.mediant(second),
    {
        first + second
    }
}

impl vstd::std_specs::ops::AddSpecImpl for Pos {
    open spec fn obeys_add_spec() -> bool {
        true
    }

    open spec fn add_req(self, rhs: Pos) -> bool {
        self.mediant_fits(rhs)
    }

    open spec fn add_spec(self, rhs: Pos) -> Pos {
        self.mediant(rhs)
    }
}

impl core::ops::Add for Pos {
    type Output = Pos;

    fn add(self, rhs: Pos) -> (r: Pos) {
        Pos { num: self.num + rhs.num, denom: self.denom + rhs.denom }
    }
}

impl core::ops::AddAssign for Pos {
    fn add_assign(&mut self, rhs: Pos)
        requires
            old(self).mediant_fits(rhs),
        ensures
            *final(self) == old(self).mediant(rhs),
    {
        self.num = self.num + rhs.num;
        self.denom = self.denom + rhs.denom;
    }
}

impl PartialEq for Pos {
    fn eq(&self, other: &Pos) -> (r: bool) {
        fractions_match(self.num, self.denom, other.num, other.denom)
    }
}

impl vstd::std_specs::cmp::PartialEqSpecImpl for Pos {
    open spec fn obeys_eq_spec() -> bool {
        true
    }

    open spec fn eq_spec(&self, other: &Pos) -> bool {
        self.same(*other)
    }
}

impl PartialOrd for Pos {
    fn partial_cmp(&self, other: &Pos) -> (r: Option<core::cmp::Ordering>) {
        Some(compare_fractions(self.num, self.denom, other.num, other.denom))
    }
}

impl vstd::std_specs::cmp::PartialOrdSpecImpl for Pos {
    open spec fn obeys_partial_cmp_spec() -> bool {
        true
    }

    open spec fn partial_cmp_spec(&self, other: &Pos) -> Option<core::cmp::Ordering> {
        if self.before(*other) {
            Some(core::cmp::Ordering::Less)
        } else if other.before(*self) {
            Some(core::cmp::Ordering::Greater)
        } else {
            Some(core::cmp::Ordering::Equal)
        }
    }
}

impl Default for Pos {
    /// The key `1/1`.
    fn default() -> (r: Pos)
        ensures
            r == (Pos { num: 1, denom: 1 }),
    {
        Pos::new(1, DENOM_MIN)
    }
}

} // verus!
