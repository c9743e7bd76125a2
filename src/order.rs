use core::cmp::Ordering;
use vstd::prelude::*;

verus! {

/// A strict total order on keys, with an executable three-way comparison
/// that agrees with it. Every container operation relies on these laws.
pub trait KeyOrder: Sized {
    /// `self` comes strictly before `other`.
    spec fn less(self, other: Self) -> bool;

    proof fn lemma_irreflexive(a: Self)
        ensures
            !a.less(a),
    ;

    proof fn lemma_transitive(a: Self, b: Self, c: Self)
        requires
            a.less(b),
            b.less(c),
        ensures
            a.less(c),
    ;

    proof fn lemma_total(a: Self, b: Self)
        ensures
            a.less(b) || a == b || b.less(a),
    ;

    fn order(&self, other: &Self) -> (r: Ordering)
        ensures
            (r == Ordering::Less) == self.less(*other),
            (r == Ordering::Equal) == (*self == *other),
            (r == Ordering::Greater) == other.less(*self),
    ;
}

impl KeyOrder for u8 {
    open spec fn less(self, other: Self) -> bool {
        self < other
    }

    proof fn lemma_irreflexive(a: Self) {
    }

    proof fn lemma_transitive(a: Self, b: Self, c: Self) {
    }

    proof fn lemma_total(a: Self, b: Self) {
    }

    fn order(&self, other: &Self) -> (r: Ordering) {
        if *self < *other {
            Ordering::Less
        } else if *self == *other {
            Ordering::Equal
        } else {
            Ordering::Greater
        }
    }
}

impl KeyOrder for u16 {
    open spec fn less(self, other: Self) -> bool {
        self < other
    }

    proof fn lemma_irreflexive(a: Self) {
    }

    proof fn lemma_transitive(a: Self, b: Self, c: Self) {
    }

    proof fn lemma_total(a: Self, b: Self) {
    }

    fn order(&self, other: &Self) -> (r: Ordering) {
        if *self < *other {
            Ordering::Less
        } else if *self == *other {
            Ordering::Equal
        } else {
            Ordering::Greater
        }
    }
}

impl KeyOrder for u32 {
    open spec fn less(self, other: Self) -> bool {
        self < other
    }

    proof fn lemma_irreflexive(a: Self) {
    }

    proof fn lemma_transitive(a: Self, b: Self, c: Self) {
    }

    proof fn lemma_total(a: Self, b: Self) {
    }

    fn order(&self, other: &Self) -> (r: Ordering) {
        if *self < *other {
            Ordering::Less
        } else if *self == *other {
            Ordering::Equal
        } else {
            Ordering::Greater
        }
    }
}

impl KeyOrder for u64 {
    open spec fn less(self, other: Self) -> bool {
        self < other
    }

    proof fn lemma_irreflexive(a: Self) {
    }

    proof fn lemma_transitive(a: Self, b: Self, c: Self) {
    }

    proof fn lemma_total(a: Self, b: Self) {
    }

    fn order(&self, other: &Self) -> (r: Ordering) {
        if *self < *other {
            Ordering::Less
        } else if *self == *other {
            Ordering::Equal
        } else {
            Ordering::Greater
        }
    }
}

impl KeyOrder for usize {
    open spec fn less(self, other: Self) -> bool {
        self < other
    }

    proof fn lemma_irreflexive(a: Self) {
    }

    proof fn lemma_transitive(a: Self, b: Self, c: Self) {
    }

    proof fn lemma_total(a: Self, b: Self) {
    }

    fn order(&self, other: &Self) -> (r: Ordering) {
        if *self < *other {
            Ordering::Less
        } else if *self == *other {
            Ordering::Equal
        } else {
            Ordering::Greater
        }
    }
}

impl KeyOrder for i8 {
    open spec fn less(self, other: Self) -> bool {
        self < other
    }

    proof fn lemma_irreflexive(a: Self) {
    }

    proof fn lemma_transitive(a: Self, b: Self, c: Self) {
    }

    proof fn lemma_total(a: Self, b: Self) {
    }

    fn order(&self, other: &Self) -> (r: Ordering) {
        if *self < *other {
            Ordering::Less
        } else if *self == *other {
            Ordering::Equal
        } else {
            Ordering::Greater
        }
    }
}

impl KeyOrder for i16 {
    open spec fn less(self, other: Self) -> bool {
        self < other
    }

    proof fn lemma_irreflexive(a: Self) {
    }

    proof fn lemma_transitive(a: Self, b: Self, c: Self) {
    }

    proof fn lemma_total(a: Self, b: Self) {
    }

    fn order(&self, other: &Self) -> (r: Ordering) {
        if *self < *other {
            Ordering::Less
        } else if *self == *other {
            Ordering::Equal
        } else {
            Ordering::Greater
        }
    }
}

impl KeyOrder for i32 {
    open spec fn less(self, other: Self) -> bool {
        self < other
    }

    proof fn lemma_irreflexive(a: Self) {
    }

    proof fn lemma_transitive(a: Self, b: Self, c: Self) {
    }

    proof fn lemma_total(a: Self, b: Self) {
    }

    fn order(&self, other: &Self) -> (r: Ordering) {
        if *self < *other {
            Ordering::Less
        } else if *self == *other {
            Ordering::Equal
        } else {
            Ordering::Greater
        }
    }
}

impl KeyOrder for i64 {
    open spec fn less(self, other: Self) -> bool {
        self < other
    }

    proof fn lemma_irreflexive(a: Self) {
    }

    proof fn lemma_transitive(a: Self, b: Self, c: Self) {
    }

    proof fn lemma_total(a: Self, b: Self) {
    }

    fn order(&self, other: &Self) -> (r: Ordering) {
        if *self < *other {
            Ordering::Less
        } else if *self == *other {
            Ordering::Equal
        } else {
            Ordering::Greater
        }
    }
}

impl KeyOrder for isize {
    open spec fn less(self, other: Self) -> bool {
        self < other
    }

    proof fn lemma_irreflexive(a: Self) {
    }

    proof fn lemma_transitive(a: Self, b: Self, c: Self) {
    }

    proof fn lemma_total(a: Self, b: Self) {
    }

    fn order(&self, other: &Self) -> (r: Ordering) {
        if *self < *other {
            Ordering::Less
        } else if *self == *other {
            Ordering::Equal
        } else {
            Ordering::Greater
        }
    }
}

impl KeyOrder for char {
    open spec fn less(self, other: Self) -> bool {
        self < other
    }

    proof fn lemma_irreflexive(a: Self) {
    }

    proof fn lemma_transitive(a: Self, b: Self, c: Self) {
    }

    proof fn lemma_total(a: Self, b: Self) {
    }

    fn order(&self, other: &Self) -> (r: Ordering) {
        if *self < *other {
            Ordering::Less
        } else if *self == *other {
            Ordering::Equal
        } else {
            Ordering::Greater
        }
    }
}

/// Pairs are ordered by their first component, then by their second.
impl<A: KeyOrder, B: KeyOrder> KeyOrder for (A, B) {
    open spec fn less(self, other: Self) -> bool {
        self.0.less(other.0) || (self.0 == other.0 && self.1.less(other.1))
    }

    proof fn lemma_irreflexive(a: Self) {
        A::lemma_irreflexive(a.0);
        B::lemma_irreflexive(a.1);
    }

    proof fn lemma_transitive(a: Self, b: Self, c: Self) {
        if a.0.less(b.0) && b.0.less(c.0) {
            A::lemma_transitive(a.0, b.0, c.0);
        } else if a.0 == b.0 && b.0 == c.0 {
            B::lemma_transitive(a.1, b.1, c.1);
        }
    }

    proof fn lemma_total(a: Self, b: Self) {
        A::lemma_total(a.0, b.0);
        B::lemma_total(a.1, b.1);
    }

    fn order(&self, other: &Self) -> (r: Ordering) {
        proof {
            A::lemma_irreflexive(self.0);
            B::lemma_irreflexive(self.1);
            A::lemma_total(self.0, other.0);
            if self.0.less(other.0) && other.0.less(self.0) {
                A::lemma_transitive(self.0, other.0, self.0);
            }
            if self.1.less(other.1) && other.1.less(self.1) {
                B::lemma_transitive(self.1, other.1, self.1);
            }
        }
        match self.0.order(&other.0) {
            Ordering::Equal => self.1.order(&other.1),
            o => o,
        }
    }
}

} // verus!
