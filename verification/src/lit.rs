//! Boolean literals: the boolean analogue of a bound, a variable together
//! with an assigned truth value, packed into one word so that a literal and
//! its negation are adjacent in the packed order.

use vstd::prelude::*;

verus! {

/// A boolean literal. The code packs the variable (high 31 bits) and the
/// sign (lowest bit, 1 for the positive literal).
#[derive(Clone, Copy, PartialEq, Eq, Structural, Hash, PartialOrd, Ord, Debug)]
pub struct Lit {
    code: u32,
}

impl Lit {
    pub closed spec fn spec_code(self) -> u32 {
        self.code
    }

    /// The variable of the literal.
    pub open spec fn spec_var(self) -> u32 {
        self.spec_code() >> 1u32
    }

    /// The truth value the literal asserts for its variable.
    pub open spec fn spec_value(self) -> bool {
        self.spec_code() & 1u32 == 1u32
    }

    pub fn new(var: u32, value: bool) -> (r: Lit)
        requires
            var < 0x8000_0000u32,
        ensures
            r.spec_var() == var,
            r.spec_value() == value,
    {
        let code = (var << 1u32) | (if value { 1u32 } else { 0u32 });
        proof {
            assert(var < 0x8000_0000u32 ==> (((var << 1u32) | 1u32) >> 1u32 == var
                && ((var << 1u32) | 0u32) >> 1u32 == var
                && ((var << 1u32) | 1u32) & 1u32 == 1u32
                && ((var << 1u32) | 0u32) & 1u32 == 0u32)) by (bit_vector);
        }
        Lit { code }
    }

    pub fn variable(self) -> (v: u32)
        ensures
            v == self.spec_var(),
    {
        self.code >> 1u32
    }

    pub fn value(self) -> (v: bool)
        ensures
            v == self.spec_value(),
    {
        self.code & 1u32 == 1
    }

    /// The packed code; sorting literals by code groups the two literals of
    /// one variable next to each other.
    pub fn code(self) -> (c: u32)
        ensures
            c == self.spec_code(),
    {
        self.code
    }

    pub closed spec fn spec_negate(self) -> Lit {
        Lit { code: self.spec_code() ^ 1u32 }
    }

    /// The literal asserting the opposite value for the same variable.
    pub fn negate(self) -> (r: Lit)
        ensures
            r == self.spec_negate(),
            r.spec_var() == self.spec_var(),
            r.spec_value() == !self.spec_value(),
    {
        proof {
            let c = self.code;
            assert((c ^ 1u32) >> 1u32 == c >> 1u32 && (((c ^ 1u32) & 1u32 == 1u32) <==> !(c & 1u32
                == 1u32))) by (bit_vector);
        }
        Lit { code: self.code ^ 1u32 }
    }
}

/// Two literals with equal variable and value have equal codes: the packing
/// loses nothing.
pub proof fn lemma_lit_code_injective(a: Lit, b: Lit)
    ensures
        (a == b) <==> (a.spec_var() == b.spec_var() && a.spec_value() == b.spec_value()),
        (a == b) <==> (a.spec_code() == b.spec_code()),
{
    let x = a.spec_code();
    let y = b.spec_code();
    assert((x >> 1u32 == y >> 1u32 && ((x & 1u32 == 1u32) <==> (y & 1u32 == 1u32))) ==> x == y)
        by (bit_vector);
}

/// Two distinct literals of one variable are each other's negation, and
/// their packed codes are consecutive integers.
pub proof fn lemma_same_var_negation(a: Lit, b: Lit)
    requires
        a.spec_var() == b.spec_var(),
        a != b,
    ensures
        b == a.spec_negate(),
        a.spec_code() + 1 == b.spec_code() || b.spec_code() + 1 == a.spec_code(),
{
    let x = a.spec_code();
    let y = b.spec_code();
    assert((x >> 1u32 == y >> 1u32 && x != y) ==> (y == x ^ 1u32 && (x + 1 == y || y + 1 == x)))
        by (bit_vector);
}

/// The packed code of a negation: the sign bit flipped.
pub proof fn lemma_negate_code(a: Lit)
    ensures
        a.spec_negate().spec_code() == a.spec_code() ^ 1u32,
{
}

/// A literal never equals its own negation.
pub proof fn lemma_negate_distinct(a: Lit)
    ensures
        a.spec_negate() != a,
        a.spec_negate().spec_var() == a.spec_var(),
{
    let x = a.spec_code();
    assert(x ^ 1u32 != x && (x ^ 1u32) >> 1u32 == x >> 1u32) by (bit_vector);
}

} // verus!
