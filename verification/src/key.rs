//! Keys and their order.
//!
//! A tree compares keys only through [`Key::compare`]; its contracts speak of
//! the strict order [`Key::lt`] on the keys' views.

use vstd::prelude::*;

verus! {

/// Outcome of comparing two keys.
#[derive(Clone, Copy, Debug, PartialEq, Eq, Structural)]
pub enum KeyOrder {
    Less,
    Equal,
    Greater,
}

/// A key type: values that are copied freely and whose views are totally
/// ordered. Two keys are the same key exactly when their views are equal.
pub trait Key: View + Copy {
    /// The strict order on the views of keys.
    spec fn lt(a: Self::V, b: Self::V) -> bool;

    /// Nothing comes before itself.
    proof fn lt_irreflexive(a: Self::V)
        ensures
            !Self::lt(a, a),
    ;

    /// What comes before something that comes before a third comes before the
    /// third.
    proof fn lt_transitive(a: Self::V, b: Self::V, c: Self::V)
        requires
            Self::lt(a, b),
            Self::lt(b, c),
        ensures
            Self::lt(a, c),
    ;

    /// Of two different values one comes before the other.
    proof fn lt_connected(a: Self::V, b: Self::V)
        ensures
            Self::lt(a, b) || a == b || Self::lt(b, a),
    ;

    /// Compares two keys: which of them comes first, or that they are the same.
    fn compare(&self, other: &Self) -> (o: KeyOrder)
        ensures
            match o {
                KeyOrder::Less => Self::lt(self@, other@),
                KeyOrder::Equal => self@ == other@,
                KeyOrder::Greater => Self::lt(other@, self@),
            },
    ;
}

impl Key for u8 {
    open spec fn lt(a: u8, b: u8) -> bool {
        a < b
    }

    proof fn lt_irreflexive(a: u8) {
    }

    proof fn lt_transitive(a: u8, b: u8, c: u8) {
    }

    proof fn lt_connected(a: u8, b: u8) {
    }

    fn compare(&self, other: &Self) -> (o: KeyOrder) {
        if *self < *other {
            KeyOrder::Less
        } else if *self == *other {
            KeyOrder::Equal
        } else {
            KeyOrder::Greater
        }
    }
}

impl Key for u16 {
    open spec fn lt(a: u16, b: u16) -> bool {
        a < b
    }

    proof fn lt_irreflexive(a: u16) {
    }

    proof fn lt_transitive(a: u16, b: u16, c: u16) {
    }

    proof fn lt_connected(a: u16, b: u16) {
    }

    fn compare(&self, other: &Self) -> (o: KeyOrder) {
        if *self < *other {
            KeyOrder::Less
        } else if *self == *other {
            KeyOrder::Equal
        } else {
            KeyOrder::Greater
        }
    }
}

impl Key for u32 {
    open spec fn lt(a: u32, b: u32) -> bool {
        a < b
    }

    proof fn lt_irreflexive(a: u32) {
    }

    proof fn lt_transitive(a: u32, b: u32, c: u32) {
    }

    proof fn lt_connected(a: u32, b: u32) {
    }

    fn compare(&self, other: &Self) -> (o: KeyOrder) {
        if *self < *other {
            KeyOrder::Less
        } else if *self == *other {
            KeyOrder::Equal
        } else {
            KeyOrder::Greater
        }
    }
}

impl Key for u64 {
    open spec fn lt(a: u64, b: u64) -> bool {
        a < b
    }

    proof fn lt_irreflexive(a: u64) {
    }

    proof fn lt_transitive(a: u64, b: u64, c: u64) {
    }

    proof fn lt_connected(a: u64, b: u64) {
    }

    fn compare(&self, other: &Self) -> (o: KeyOrder) {
        if *self < *other {
            KeyOrder::Less
        } else if *self == *other {
            KeyOrder::Equal
        } else {
            KeyOrder::Greater
        }
    }
}

impl Key for u128 {
    open spec fn lt(a: u128, b: u128) -> bool {
        a < b
    }

    proof fn lt_irreflexive(a: u128) {
    }

    proof fn lt_transitive(a: u128, b: u128, c: u128) {
    }

    proof fn lt_connected(a: u128, b: u128) {
    }

    fn compare(&self, other: &Self) -> (o: KeyOrder) {
        if *self < *other {
            KeyOrder::Less
        } else if *self == *other {
            KeyOrder::Equal
        } else {
            KeyOrder::Greater
        }
    }
}

impl Key for usize {
    open spec fn lt(a: usize, b: usize) -> bool {
        a < b
    }

    proof fn lt_irreflexive(a: usize) {
    }

    proof fn lt_transitive(a: usize, b: usize, c: usize) {
    }

    proof fn lt_connected(a: usize, b: usize) {
    }

    fn compare(&self, other: &Self) -> (o: KeyOrder) {
        if *self < *other {
            KeyOrder::Less
        } else if *self == *other {
            KeyOrder::Equal
        } else {
            KeyOrder::Greater
        }
    }
}

impl Key for i8 {
    open spec fn lt(a: i8, b: i8) -> bool {
        a < b
    }

    proof fn lt_irreflexive(a: i8) {
    }

    proof fn lt_transitive(a: i8, b: i8, c: i8) {
    }

    proof fn lt_connected(a: i8, b: i8) {
    }

    fn compare(&self, other: &Self) -> (o: KeyOrder) {
        if *self < *other {
            KeyOrder::Less
        } else if *self == *other {
            KeyOrder::Equal
        } else {
            KeyOrder::Greater
        }
    }
}

impl Key for i16 {
    open spec fn lt(a: i16, b: i16) -> bool {
        a < b
    }

    proof fn lt_irreflexive(a: i16) {
    }

    proof fn lt_transitive(a: i16, b: i16, c: i16) {
    }

    proof fn lt_connected(a: i16, b: i16) {
    }

    fn compare(&self, other: &Self) -> (o: KeyOrder) {
        if *self < *other {
            KeyOrder::Less
        } else if *self == *other {
            KeyOrder::Equal
        } else {
            KeyOrder::Greater
        }
    }
}

impl Key for i32 {
    open spec fn lt(a: i32, b: i32) -> bool {
        a < b
    }

    proof fn lt_irreflexive(a: i32) {
    }

    proof fn lt_transitive(a: i32, b: i32, c: i32) {
    }

    proof fn lt_connected(a: i32, b: i32) {
    }

    fn compare(&self, other: &Self) -> (o: KeyOrder) {
        if *self < *other {
            KeyOrder::Less
        } else if *self == *other {
            KeyOrder::Equal
        } else {
            KeyOrder::Greater
        }
    }
}

impl Key for i64 {
    open spec fn lt(a: i64, b: i64) -> bool {
        a < b
    }

    proof fn lt_irreflexive(a: i64) {
    }

    proof fn lt_transitive(a: i64, b: i64, c: i64) {
    }

    proof fn lt_connected(a: i64, b: i64) {
    }

    fn compare(&self, other: &Self) -> (o: KeyOrder) {
        if *self < *other {
            KeyOrder::Less
        } else if *self == *other {
            KeyOrder::Equal
        } else {
            KeyOrder::Greater
        }
    }
}

impl Key for i128 {
    open spec fn lt(a: i128, b: i128) -> bool {
        a < b
    }

    proof fn lt_irreflexive(a: i128) {
    }

    proof fn lt_transitive(a: i128, b: i128, c: i128) {
    }

    proof fn lt_connected(a: i128, b: i128) {
    }

    fn compare(&self, other: &Self) -> (o: KeyOrder) {
        if *self < *other {
            KeyOrder::Less
        } else if *self == *other {
            KeyOrder::Equal
        } else {
            KeyOrder::Greater
        }
    }
}

impl Key for isize {
    open spec fn lt(a: isize, b: isize) -> bool {
        a < b
    }

    proof fn lt_irreflexive(a: isize) {
    }

    proof fn lt_transitive(a: isize, b: isize, c: isize) {
    }

    proof fn lt_connected(a: isize, b: isize) {
    }

    fn compare(&self, other: &Self) -> (o: KeyOrder) {
        if *self < *other {
            KeyOrder::Less
        } else if *self == *other {
            KeyOrder::Equal
        } else {
            KeyOrder::Greater
        }
    }
}

impl Key for char {
    open spec fn lt(a: char, b: char) -> bool {
        a < b
    }

    proof fn lt_irreflexive(a: char) {
    }

    proof fn lt_transitive(a: char, b: char, c: char) {
    }

    proof fn lt_connected(a: char, b: char) {
    }

    fn compare(&self, other: &Self) -> (o: KeyOrder) {
        if *self < *other {
            KeyOrder::Less
        } else if *self == *other {
            KeyOrder::Equal
        } else {
            KeyOrder::Greater
        }
    }
}

} // verus!
