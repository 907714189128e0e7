//! Element types and the arithmetic the engines need from them.
use vstd::prelude::*;

verus! {

/// A numeric element type. The arithmetic is that of the type itself; for the
/// fixed-width integers below it is two's-complement wrapping arithmetic.
pub trait Num: Copy + Sized {
    spec fn zero_spec() -> Self;

    spec fn one_spec() -> Self;

    spec fn plus_spec(a: Self, b: Self) -> Self;

    spec fn times_spec(a: Self, b: Self) -> Self;

    spec fn lt_spec(a: Self, b: Self) -> bool;

    /// Zero is neutral for addition, one is neutral for multiplication and
    /// zero absorbs multiplication.
    proof fn lemma_identities()
        ensures
            forall|x: Self| #[trigger] Self::plus_spec(x, Self::zero_spec()) == x,
            forall|x: Self| #[trigger] Self::plus_spec(Self::zero_spec(), x) == x,
            forall|x: Self| #[trigger] Self::times_spec(Self::one_spec(), x) == x,
            forall|x: Self| #[trigger] Self::times_spec(Self::zero_spec(), x) == Self::zero_spec(),
    ;

    /// Addition and multiplication commute.
    proof fn lemma_commutative()
        ensures
            forall|x: Self, y: Self| #[trigger] Self::plus_spec(x, y) == Self::plus_spec(y, x),
            forall|x: Self, y: Self| #[trigger] Self::times_spec(x, y) == Self::times_spec(y, x),
    ;

    fn zero() -> (r: Self)
        ensures
            r == Self::zero_spec(),
    ;

    fn one() -> (r: Self)
        ensures
            r == Self::one_spec(),
    ;

    fn plus(self, o: Self) -> (r: Self)
        ensures
            r == Self::plus_spec(self, o),
    ;

    fn times(self, o: Self) -> (r: Self)
        ensures
            r == Self::times_spec(self, o),
    ;

    fn lt(self, o: Self) -> (r: bool)
        ensures
            r == Self::lt_spec(self, o),
    ;
}

impl Num for i64 {
    open spec fn zero_spec() -> i64 {
        0
    }

    open spec fn one_spec() -> i64 {
        1
    }

    open spec fn plus_spec(a: i64, b: i64) -> i64 {
        a.wrapping_add(b)
    }

    open spec fn times_spec(a: i64, b: i64) -> i64 {
        a.wrapping_mul(b)
    }

    open spec fn lt_spec(a: i64, b: i64) -> bool {
        a < b
    }

    proof fn lemma_identities() {
        assert forall|x: i64| #[trigger] Self::times_spec(1, x) == x by {
            let r: int = 0x1_0000_0000_0000_0000;
            if x >= 0 {
                vstd::arithmetic::div_mod::lemma_small_mod(x as nat, r as nat);
            } else {
                vstd::arithmetic::div_mod::lemma_mod_add_multiples_vanish(x as int, r);
                vstd::arithmetic::div_mod::lemma_small_mod((x + r) as nat, r as nat);
            }
        }
        assert forall|x: i64| #[trigger] Self::times_spec(0, x) == 0 by {
            assert(0 * (x as int) == 0);
        }
    }

    proof fn lemma_commutative() {
        assert forall|x: i64, y: i64| #[trigger] Self::times_spec(x, y) == Self::times_spec(y, x) by {
            assert((x as int) * (y as int) == (y as int) * (x as int)) by (nonlinear_arith);
        }
    }

    fn zero() -> (r: i64) {
        0
    }

    fn one() -> (r: i64) {
        1
    }

    fn plus(self, o: i64) -> (r: i64) {
        self.wrapping_add(o)
    }

    fn times(self, o: i64) -> (r: i64) {
        self.wrapping_mul(o)
    }

    fn lt(self, o: i64) -> (r: bool) {
        self < o
    }
}

impl Num for i32 {
    open spec fn zero_spec() -> i32 {
        0
    }

    open spec fn one_spec() -> i32 {
        1
    }

    open spec fn plus_spec(a: i32, b: i32) -> i32 {
        a.wrapping_add(b)
    }

    open spec fn times_spec(a: i32, b: i32) -> i32 {
        a.wrapping_mul(b)
    }

    open spec fn lt_spec(a: i32, b: i32) -> bool {
        a < b
    }

    proof fn lemma_identities() {
        assert forall|x: i32| #[trigger] Self::times_spec(1, x) == x by {
            let r: int = 0x1_0000_0000;
            if x >= 0 {
                vstd::arithmetic::div_mod::lemma_small_mod(x as nat, r as nat);
            } else {
                vstd::arithmetic::div_mod::lemma_mod_add_multiples_vanish(x as int, r);
                vstd::arithmetic::div_mod::lemma_small_mod((x + r) as nat, r as nat);
            }
        }
        assert forall|x: i32| #[trigger] Self::times_spec(0, x) == 0 by {
            assert(0 * (x as int) == 0);
        }
    }

    proof fn lemma_commutative() {
        assert forall|x: i32, y: i32| #[trigger] Self::times_spec(x, y) == Self::times_spec(y, x) by {
            assert((x as int) * (y as int) == (y as int) * (x as int)) by (nonlinear_arith);
        }
    }

    fn zero() -> (r: i32) {
        0
    }

    fn one() -> (r: i32) {
        1
    }

    fn plus(self, o: i32) -> (r: i32) {
        self.wrapping_add(o)
    }

    fn times(self, o: i32) -> (r: i32) {
        self.wrapping_mul(o)
    }

    fn lt(self, o: i32) -> (r: bool) {
        self < o
    }
}

} // verus!
