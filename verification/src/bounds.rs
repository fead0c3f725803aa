//! Packed, orderable representation of single-variable inequalities.
//!
//! A `Bound` is either `var <= k` or `var > k` on a discrete variable.
//! Variable and relation are packed into one word and the threshold is
//! sign-encoded so that entailment between two bounds is a single pair of
//! integer comparisons. The packing is private: the logical view (variable,
//! relation, value) is recovered through spec functions and accessors.

use vstd::prelude::*;

verus! {

/// Type of the integer constants appearing in bounds and domains.
pub type IntCst = i32;

/// Dense identifier of a discrete variable, assigned from 0.
#[derive(Clone, Copy, PartialEq, Eq, Structural, Hash, PartialOrd, Ord, Debug)]
pub struct VarRef {
    pub id: u32,
}

impl VarRef {
    /// A variable id must leave the top bit free so that it can be packed
    /// beside a relation bit.
    pub open spec fn wf(self) -> bool {
        self.id < 0x8000_0000u32
    }

    pub fn new(id: u32) -> (r: VarRef)
        requires
            id < 0x8000_0000u32,
        ensures
            r.id == id,
            r.wf(),
    {
        VarRef { id }
    }
}

/// Dense identifier of a boolean variable. Its truth literals are the bounds
/// `v > 0` (true) and `v <= 0` (false).
#[derive(Clone, Copy, PartialEq, Eq, Structural, Hash, PartialOrd, Ord, Debug)]
pub struct BVar {
    pub var: VarRef,
}

impl BVar {
    pub fn new(id: u32) -> (r: BVar)
        requires
            id < 0x8000_0000u32,
        ensures
            r.var.id == id,
    {
        BVar { var: VarRef { id } }
    }
}

/// The two internal relations a bound is normalized to.
/// `<` and `>=` are rewritten during construction (`x < v` becomes
/// `x <= v-1`, `x >= v` becomes `x > v-1`).
#[derive(Clone, Copy, PartialEq, Eq, Structural, Hash, PartialOrd, Ord, Debug)]
pub enum Relation {
    GT,
    LEQ,
}

/// One signed integer encoding both the threshold and the side of a bound:
/// an upper-bound value `ub(k)` is stored as `k`, a lower-bound value `lb(v)`
/// as `1 - v`. With this encoding "stronger" (more restrictive) is the plain
/// comparison `<=` on the raw value, regardless of side.
#[derive(Clone, Copy, PartialEq, Eq, Structural, Hash, PartialOrd, Ord, Debug)]
pub struct BoundValue {
    raw: i32,
}

impl BoundValue {
    pub closed spec fn spec_raw(self) -> i32 {
        self.raw
    }

    /// The raw value must stay negatable.
    pub open spec fn wf(self) -> bool {
        self.spec_raw() != i32::MIN
    }

    /// The encoding of the upper bound `x <= value`.
    pub fn ub(value: IntCst) -> (r: BoundValue)
        requires
            value != i32::MIN,
        ensures
            r.spec_raw() == value,
            r.wf(),
    {
        BoundValue { raw: value }
    }

    /// The encoding of the lower bound `x >= value`.
    pub fn lb(value: IntCst) -> (r: BoundValue)
        requires
            value >= i32::MIN + 2,
        ensures
            r.spec_raw() == 1 - value,
            r.wf(),
    {
        BoundValue { raw: 1 - value }
    }

    /// Whether this value is at least as restrictive as `other`, assuming
    /// both encode the same side for the same variable.
    pub fn stronger(self, other: BoundValue) -> (r: bool)
        ensures
            r == (self.spec_raw() <= other.spec_raw()),
    {
        self.raw <= other.raw
    }

    /// The encoding of the complement side: `neg(ub(k)) == lb(k + 1)` and
    /// `neg(lb(v)) == ub(v - 1)`.
    pub fn neg(self) -> (r: BoundValue)
        requires
            self.wf(),
        ensures
            r.spec_raw() == -self.spec_raw(),
            r.wf(),
    {
        BoundValue { raw: -self.raw }
    }
}

/// Packed (variable, side) index: two consecutive slots per variable,
/// side 0 for the lower-bound relation `GT`, side 1 for `LEQ`.
#[derive(Clone, Copy, PartialEq, Eq, Structural, Hash, PartialOrd, Ord, Debug)]
pub struct VarBound {
    vr: u32,
}

impl VarBound {
    pub closed spec fn spec_raw(self) -> u32 {
        self.vr
    }

    pub fn new_raw(vr: u32) -> (r: VarBound)
        ensures
            r.spec_raw() == vr,
    {
        VarBound { vr }
    }

    pub fn raw(self) -> (r: u32)
        ensures
            r == self.spec_raw(),
    {
        self.vr
    }
}

/// An immutable bound `var <= k` or `var > k`, packed as a (VarBound,
/// BoundValue) pair.
#[derive(Clone, Copy, PartialEq, Eq, Structural, Hash, PartialOrd, Ord, Debug)]
pub struct Bound {
    /// Union of the variable (highest 31 bits) and the relation (lowest bit).
    var_rel: u32,
    /// Sign-encoded threshold; see `BoundValue`.
    raw_value: BoundValue,
}

impl Bound {
    pub closed spec fn spec_var_rel(self) -> u32 {
        self.var_rel
    }

    pub closed spec fn spec_raw(self) -> i32 {
        self.raw_value.spec_raw()
    }

    pub open spec fn wf(self) -> bool {
        self.spec_raw() != i32::MIN
    }

    /// The variable the bound constrains.
    pub open spec fn spec_variable(self) -> u32 {
        self.spec_var_rel() >> 1u32
    }

    /// The relation of the logical view.
    pub open spec fn spec_relation(self) -> Relation {
        if self.spec_var_rel() & 1u32 == 1u32 {
            Relation::LEQ
        } else {
            Relation::GT
        }
    }

    /// The threshold of the logical view.
    pub open spec fn spec_value(self) -> int {
        match self.spec_relation() {
            Relation::LEQ => self.spec_raw() as int,
            Relation::GT => -(self.spec_raw() as int),
        }
    }

    /// The set of integers a bound admits for its variable.
    pub open spec fn spec_satisfied_by(self, x: int) -> bool {
        match self.spec_relation() {
            Relation::LEQ => x <= self.spec_value(),
            Relation::GT => x > self.spec_value(),
        }
    }

    /// Entailment at the spec level: same packed (variable, relation) part
    /// and a threshold at least as strong.
    pub open spec fn spec_entails(self, other: Bound) -> bool {
        self.spec_var_rel() == other.spec_var_rel() && self.spec_raw() <= other.spec_raw()
    }

    /// Which inputs `new` accepts: the variable keeps its top bit free, and
    /// the threshold stays in the encodable range of the relation.
    pub open spec fn new_ok(variable: VarRef, relation: Relation, value: int) -> bool {
        &&& variable.wf()
        &&& match relation {
            Relation::LEQ => (i32::MIN as int) < value && value <= (i32::MAX as int),
            Relation::GT => (i32::MIN as int) < value && value < (i32::MAX as int),
        }
    }

    /// The packed bound for a logical (variable, relation, value) triple.
    pub closed spec fn spec_new(variable: VarRef, relation: Relation, value: int) -> Bound {
        Bound {
            var_rel: (variable.id << 1u32) | (match relation {
                Relation::GT => 0u32,
                Relation::LEQ => 1u32,
            }),
            raw_value: BoundValue {
                raw: match relation {
                    Relation::LEQ => value as i32,
                    Relation::GT => (-value) as i32,
                },
            },
        }
    }

    /// Construction is the exact inverse of the logical view: the packed
    /// bound for valid (variable, relation, value) unpacks to the same
    /// triple. This is the round-trip law of the representation.
    pub proof fn lemma_new_unpack(variable: VarRef, relation: Relation, value: int)
        requires
            Bound::new_ok(variable, relation, value),
        ensures
            Bound::spec_new(variable, relation, value).wf(),
            Bound::spec_new(variable, relation, value).spec_variable() == variable.id,
            Bound::spec_new(variable, relation, value).spec_relation() == relation,
            Bound::spec_new(variable, relation, value).spec_value() == value,
    {
        let b = Bound::spec_new(variable, relation, value);
        let id = variable.id;
        match relation {
            Relation::LEQ => {
                assert(b.spec_var_rel() == (id << 1u32) | 1u32);
                assert(id < 0x8000_0000u32 ==> (((id << 1u32) | 1u32) >> 1u32 == id
                    && ((id << 1u32) | 1u32) & 1u32 == 1u32)) by (bit_vector);
            },
            Relation::GT => {
                assert(b.spec_var_rel() == (id << 1u32) | 0u32);
                assert(id < 0x8000_0000u32 ==> (((id << 1u32) | 0u32) >> 1u32 == id
                    && ((id << 1u32) | 0u32) & 1u32 == 0u32)) by (bit_vector);
            },
        }
    }

    /// Two bounds with the same logical (variable, relation) share the packed
    /// key, and conversely.
    pub proof fn lemma_key_packing(a: Bound, b: Bound)
        ensures
            (a.spec_var_rel() == b.spec_var_rel()) <==> (a.spec_variable() == b.spec_variable()
                && a.spec_relation() == b.spec_relation()),
    {
        let x = a.spec_var_rel();
        let y = b.spec_var_rel();
        assert((x >> 1u32 == y >> 1u32 && ((x & 1u32 == 1u32) <==> (y & 1u32 == 1u32))) ==> x == y)
            by (bit_vector);
    }

    #[inline]
    pub fn from_parts(var_bound: VarBound, value: BoundValue) -> (r: Bound)
        requires
            value.wf(),
        ensures
            r.spec_var_rel() == var_bound.spec_raw(),
            r.spec_raw() == value.spec_raw(),
            r.wf(),
    {
        Bound { var_rel: var_bound.raw(), raw_value: value }
    }

    #[inline]
    pub fn new(variable: VarRef, relation: Relation, value: IntCst) -> (r: Bound)
        requires
            Bound::new_ok(variable, relation, value as int),
        ensures
            r == Bound::spec_new(variable, relation, value as int),
            r.wf(),
            r.spec_variable() == variable.id,
            r.spec_relation() == relation,
            r.spec_value() == value as int,
    {
        proof {
            Bound::lemma_new_unpack(variable, relation, value as int);
        }
        let var_part = variable.id << 1u32;
        let relation_part: u32 = match relation {
            Relation::GT => 0,
            Relation::LEQ => 1,
        };
        let raw_value = match relation {
            Relation::LEQ => BoundValue::ub(value),
            Relation::GT => BoundValue::lb(value + 1),
        };
        Bound { var_rel: var_part | relation_part, raw_value }
    }

    #[inline]
    pub fn variable(self) -> (v: VarRef)
        ensures
            v.id == self.spec_variable(),
    {
        let var_part = self.var_rel & VAR_MASK;
        let var = var_part >> 1u32;
        proof {
            let x = self.var_rel;
            assert((x & !1u32) >> 1u32 == x >> 1u32) by (bit_vector);
            assert(x >> 1u32 < 0x8000_0000u32) by (bit_vector);
        }
        VarRef { id: var }
    }

    #[inline]
    pub fn relation(self) -> (r: Relation)
        ensures
            r == self.spec_relation(),
    {
        if self.var_rel & REL_MASK == 1 {
            Relation::LEQ
        } else {
            Relation::GT
        }
    }

    #[inline]
    pub fn value(self) -> (v: IntCst)
        requires
            self.wf(),
        ensures
            v as int == self.spec_value(),
    {
        match self.relation() {
            Relation::LEQ => self.raw_value.raw,
            Relation::GT => -self.raw_value.raw,
        }
    }

    /// The packed (variable, side) index of this bound, usable as a dense
    /// table key with two slots per variable.
    #[inline]
    pub fn affected_bound(self) -> (r: VarBound)
        ensures
            r.spec_raw() == self.spec_var_rel(),
    {
        VarBound::new_raw(self.var_rel)
    }

    /// The sign-encoded threshold of this bound.
    #[inline]
    pub fn bound_value(self) -> (r: BoundValue)
        ensures
            r.spec_raw() == self.spec_raw(),
    {
        self.raw_value
    }

    #[inline]
    pub fn leq(var: VarRef, val: IntCst) -> (r: Bound)
        requires
            var.wf(),
            val != i32::MIN,
        ensures
            r == Bound::spec_new(var, Relation::LEQ, val as int),
            r.wf(),
            r.spec_variable() == var.id,
            r.spec_relation() == Relation::LEQ,
            r.spec_value() == val as int,
    {
        Bound::new(var, Relation::LEQ, val)
    }

    #[inline]
    pub fn lt(var: VarRef, val: IntCst) -> (r: Bound)
        requires
            var.wf(),
            val >= i32::MIN + 2,
        ensures
            r == Bound::spec_new(var, Relation::LEQ, val - 1),
            r.wf(),
            r.spec_variable() == var.id,
            r.spec_relation() == Relation::LEQ,
            r.spec_value() == val - 1,
    {
        Bound::leq(var, val - 1)
    }

    #[inline]
    pub fn geq(var: VarRef, val: IntCst) -> (r: Bound)
        requires
            var.wf(),
            val >= i32::MIN + 2,
        ensures
            r == Bound::spec_new(var, Relation::GT, val - 1),
            r.wf(),
            r.spec_variable() == var.id,
            r.spec_relation() == Relation::GT,
            r.spec_value() == val - 1,
    {
        Bound::gt(var, val - 1)
    }

    #[inline]
    pub fn gt(var: VarRef, val: IntCst) -> (r: Bound)
        requires
            var.wf(),
            i32::MIN < val < i32::MAX,
        ensures
            r == Bound::spec_new(var, Relation::GT, val as int),
            r.wf(),
            r.spec_variable() == var.id,
            r.spec_relation() == Relation::GT,
            r.spec_value() == val as int,
    {
        Bound::new(var, Relation::GT, val)
    }

    /// The literal asserting that boolean variable `v` is true: `v > 0`.
    pub fn is_true(v: BVar) -> (r: Bound)
        requires
            v.var.wf(),
        ensures
            r == Bound::spec_new(v.var, Relation::GT, 0),
            r.wf(),
    {
        Bound::geq(v.var, 1)
    }

    /// The literal asserting that boolean variable `v` is false: `v <= 0`.
    pub fn is_false(v: BVar) -> (r: Bound)
        requires
            v.var.wf(),
        ensures
            r == Bound::spec_new(v.var, Relation::LEQ, 0),
            r.wf(),
    {
        Bound::leq(v.var, 0)
    }

    /// True iff every assignment admitted by `self` is admitted by `other`.
    /// O(1): one key comparison and one raw-value comparison, with no branch
    /// on the relation.
    #[inline]
    pub fn entails(self, other: Bound) -> (r: bool)
        ensures
            r == self.spec_entails(other),
    {
        self.var_rel == other.var_rel && self.raw_value.stronger(other.raw_value)
    }

    /// Recovers the full logical view.
    pub fn unpack(self) -> (r: (VarRef, Relation, IntCst))
        requires
            self.wf(),
        ensures
            r.0.id == self.spec_variable(),
            r.1 == self.spec_relation(),
            r.2 as int == self.spec_value(),
    {
        (self.variable(), self.relation(), self.value())
    }

    /// The logical complement: the unique bound admitting exactly the
    /// assignments this one excludes.
    pub closed spec fn spec_negate(self) -> Bound {
        Bound {
            var_rel: self.var_rel ^ 1u32,
            raw_value: BoundValue { raw: (-(self.spec_raw() as int)) as i32 },
        }
    }

    #[inline]
    pub fn negate(self) -> (r: Bound)
        requires
            self.wf(),
        ensures
            r == self.spec_negate(),
            r.wf(),
            r.spec_variable() == self.spec_variable(),
            r.spec_relation() == (if self.spec_relation() == Relation::LEQ {
                Relation::GT
            } else {
                Relation::LEQ
            }),
            r.spec_value() == self.spec_value(),
    {
        proof {
            let x = self.var_rel;
            assert((x ^ 1u32) >> 1u32 == x >> 1u32 && (((x ^ 1u32) & 1u32 == 1u32) <==> !(x & 1u32
                == 1u32))) by (bit_vector);
        }
        Bound { var_rel: self.var_rel ^ 1u32, raw_value: self.raw_value.neg() }
    }

    /// The total order that sorting uses: by variable, then relation, then
    /// packed value. Grouping is by (variable, relation); inside one group
    /// thresholds run from the strongest bound to the weakest.
    pub open spec fn spec_le(self, other: Bound) -> bool {
        self.spec_var_rel() < other.spec_var_rel() || (self.spec_var_rel() == other.spec_var_rel()
            && self.spec_raw() <= other.spec_raw())
    }

    /// Three-way comparison matching `spec_le` (and the derived `Ord`).
    pub fn lexical_cmp(&self, other: &Bound) -> (r: core::cmp::Ordering)
        ensures
            r == core::cmp::Ordering::Equal <==> *self == *other,
            r == core::cmp::Ordering::Less <==> (self.spec_le(*other) && *self != *other),
            r == core::cmp::Ordering::Greater <==> (other.spec_le(*self) && *self != *other),
    {
        if self.var_rel < other.var_rel {
            core::cmp::Ordering::Less
        } else if self.var_rel > other.var_rel {
            core::cmp::Ordering::Greater
        } else if self.raw_value.raw < other.raw_value.raw {
            core::cmp::Ordering::Less
        } else if self.raw_value.raw > other.raw_value.raw {
            core::cmp::Ordering::Greater
        } else {
            core::cmp::Ordering::Equal
        }
    }
}

const REL_MASK: u32 = 0x1;
const VAR_MASK: u32 = !0x1u32;

/// A bound entails itself.
pub proof fn lemma_entails_reflexive(b: Bound)
    ensures
        b.spec_entails(b),
{
}

/// Negation is an involution: the complement of the complement of a bound
/// is the bound itself.
pub proof fn lemma_negate_involution(b: Bound)
    requires
        b.wf(),
    ensures
        b.spec_negate().wf(),
        b.spec_negate().spec_negate() == b,
{
    let x = b.spec_var_rel();
    assert((x ^ 1u32) ^ 1u32 == x) by (bit_vector);
}

/// Negation produces the exact complement half-interval: it admits an
/// integer exactly when the original bound excludes it.
pub proof fn lemma_negate_complement(b: Bound, x: int)
    requires
        b.wf(),
    ensures
        b.spec_negate().spec_satisfied_by(x) <==> !b.spec_satisfied_by(x),
{
    let n = b.spec_negate();
    let v = b.spec_var_rel();
    assert((v & 1u32 == 1u32) ==> ((v ^ 1u32) & 1u32 == 0u32)) by (bit_vector);
    assert((v & 1u32 != 1u32) ==> ((v ^ 1u32) & 1u32 == 1u32)) by (bit_vector);
}

/// For two bounds on the same variable with the same relation, entailment is
/// exactly inclusion of the half-intervals they denote.
pub proof fn lemma_entails_iff_inclusion(a: Bound, b: Bound)
    requires
        a.wf(),
        b.wf(),
        a.spec_variable() == b.spec_variable(),
        a.spec_relation() == b.spec_relation(),
    ensures
        a.spec_entails(b) <==> (forall|x: int| a.spec_satisfied_by(x) ==> b.spec_satisfied_by(x)),
{
    Bound::lemma_key_packing(a, b);
    if forall|x: int| a.spec_satisfied_by(x) ==> b.spec_satisfied_by(x) {
        match a.spec_relation() {
            Relation::LEQ => {
                assert(a.spec_satisfied_by(a.spec_value()));
            },
            Relation::GT => {
                assert(a.spec_satisfied_by(a.spec_value() + 1));
            },
        }
    }
}

/// Soundness of the O(1) entailment check: whenever `a` entails `b`, every
/// assignment admitted by `a` is admitted by `b`.
pub proof fn lemma_entails_sound(a: Bound, b: Bound, x: int)
    requires
        a.wf(),
        b.wf(),
        a.spec_entails(b),
        a.spec_satisfied_by(x),
    ensures
        b.spec_satisfied_by(x),
{
    Bound::lemma_key_packing(a, b);
}

/// Inside one (variable, relation) group the bound order runs from the
/// strongest bound to the weakest: thresholds ascend for `LEQ` and descend
/// for `GT`, and the earlier bound entails the later one.
pub proof fn lemma_le_same_key_by_value(a: Bound, b: Bound)
    requires
        a.wf(),
        b.wf(),
        a.spec_var_rel() == b.spec_var_rel(),
    ensures
        a.spec_le(b) <==> match a.spec_relation() {
            Relation::LEQ => a.spec_value() <= b.spec_value(),
            Relation::GT => a.spec_value() >= b.spec_value(),
        },
        a.spec_le(b) <==> a.spec_entails(b),
{
}

/// The logical view determines the bound: two well-formed bounds with the
/// same variable, relation and value are the same packed value.
pub proof fn lemma_unpack_injective(a: Bound, b: Bound)
    requires
        a.wf(),
        b.wf(),
        a.spec_variable() == b.spec_variable(),
        a.spec_relation() == b.spec_relation(),
        a.spec_value() == b.spec_value(),
    ensures
        a == b,
{
    Bound::lemma_key_packing(a, b);
}

/// The bound order compares the variable first and the relation second, so
/// sorting groups bounds by variable and, within one variable, by relation
/// (`GT` before `LEQ`).
pub proof fn lemma_le_groups_by_variable(a: Bound, b: Bound)
    requires
        a.spec_le(b),
    ensures
        a.spec_variable() <= b.spec_variable(),
        a.spec_variable() == b.spec_variable() && a.spec_relation() != b.spec_relation()
            ==> a.spec_relation() == Relation::GT,
{
    let x = a.spec_var_rel();
    let y = b.spec_var_rel();
    assert(x <= y ==> x >> 1u32 <= y >> 1u32) by (bit_vector);
    assert((x <= y && x >> 1u32 == y >> 1u32 && !((x & 1u32 == 1u32) <==> (y & 1u32 == 1u32)))
        ==> (x & 1u32 == 0u32)) by (bit_vector);
}

/// A sequence sorted by the bound order.
pub open spec fn sorted_bounds(s: Seq<Bound>) -> bool {
    forall|i: int, j: int| 0 <= i <= j < s.len() ==> #[trigger] s[i].spec_le(#[trigger] s[j])
}

/// In a sorted sequence, entailment only reaches a contiguous run of bounds
/// with the same (variable, relation) key: if `s[i]` entails `s[j]`, every
/// bound between them shares the key and is entailed by `s[i]` as well, so a
/// bound never entails a non-adjacent bound with a different key.
pub proof fn lemma_sorted_entailment_adjacent(s: Seq<Bound>, i: int, j: int, k: int)
    requires
        sorted_bounds(s),
        0 <= i <= k <= j < s.len(),
        s[i].spec_entails(s[j]),
    ensures
        s[k].spec_var_rel() == s[i].spec_var_rel(),
        s[k].spec_variable() == s[i].spec_variable(),
        s[k].spec_relation() == s[i].spec_relation(),
        s[i].spec_entails(s[k]),
        s[k].spec_entails(s[j]),
{
    assert(s[i].spec_le(s[k]));
    assert(s[k].spec_le(s[j]));
    Bound::lemma_key_packing(s[k], s[i]);
}

} // verus!
