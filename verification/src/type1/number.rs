//! The numbers that outline programs compute with.

use vstd::prelude::*;

verus! {

/// A number of an outline program or a font dictionary. What the fonts
/// compute is an integer or a quotient; how a quotient is held is up to the
/// type.
pub trait Number: Copy {
    /// The number that an integer is.
    open spec fn integer(i: int) -> Self {
        arbitrary()
    }

    /// The sum.
    open spec fn sum(self, other: Self) -> Self {
        arbitrary()
    }

    /// The difference.
    open spec fn difference(self, other: Self) -> Self {
        arbitrary()
    }

    /// The quotient.
    open spec fn quotient(self, other: Self) -> Self {
        arbitrary()
    }

    /// The two are the same number.
    open spec fn equals(self, other: Self) -> bool {
        arbitrary()
    }

    /// The first is the smaller number.
    open spec fn below(self, other: Self) -> bool {
        arbitrary()
    }

    /// The value of a whole number, held to 64 bits; `None` for any other.
    open spec fn whole_value(self) -> Option<i64> {
        arbitrary()
    }

    /// The nearest 16.16 fixed-point value, where there is one.
    open spec fn fixed_value(self) -> Option<i32> {
        arbitrary()
    }

    /// How the number is spelled, where it can be.
    open spec fn spelling(self) -> Option<Seq<u8>> {
        arbitrary()
    }

    /// The number that a text spells.
    open spec fn spelled(text: Seq<u8>) -> Option<Self> {
        arbitrary()
    }

    /// A key that equal representations share.
    open spec fn key(self) -> u128 {
        arbitrary()
    }

    /// The number that an integer is.
    fn from_int(i: i32) -> (r: Self)
        ensures
            r == Self::integer(i as int),
    ;

    /// The sum.
    fn plus(self, other: Self) -> (r: Self)
        ensures
            r == self.sum(other),
    ;

    /// The difference.
    fn minus(self, other: Self) -> (r: Self)
        ensures
            r == self.difference(other),
    ;

    /// The quotient.
    fn over(self, other: Self) -> (r: Self)
        requires
            !other.equals(Self::integer(0)),
        ensures
            r == self.quotient(other),
    ;

    /// Whether the two are the same number.
    fn is_equal(self, other: Self) -> (r: bool)
        ensures
            r == self.equals(other),
    ;

    /// Whether the first is the smaller number.
    fn is_below(self, other: Self) -> (r: bool)
        ensures
            r == self.below(other),
    ;

    /// The value of a whole number.
    fn whole(self) -> (r: Option<i64>)
        ensures
            r == self.whole_value(),
    ;

    /// The nearest 16.16 fixed-point value.
    fn fixed(self) -> (r: Option<i32>)
        ensures
            r == self.fixed_value(),
    ;

    /// How the number is spelled.
    fn spell(self) -> (r: Option<Vec<u8>>)
        ensures
            match r {
                Some(text) => self.spelling() == Some(text@),
                None => self.spelling() is None,
            },
    ;

    /// The number that a text spells.
    fn read(text: &[u8]) -> (r: Option<Self>)
        ensures
            r == Self::spelled(text@),
    ;

    /// A key that equal representations share.
    fn bits(self) -> (r: u128)
        ensures
            r == self.key(),
    ;
}

} // verus!
