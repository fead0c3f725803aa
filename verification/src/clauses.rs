//! The clause database: original and learnt boolean clauses in shared
//! slotted storage, with insertion-time simplification, activity-driven
//! retention and periodic reduction.
//!
//! Activities are kept on a fixed-point integer scale. A bump adds the
//! current increment; when any activity passes `ACT_LIMIT` every activity
//! and the increment are divided by `ACT_RESCALE_DIV`, which preserves the
//! relative order of the activities. Decaying is O(1): instead of shrinking
//! every activity the increment grows.

use vstd::arithmetic::div_mod::lemma_div_is_ordered;
use vstd::prelude::*;

use crate::lit::lemma_same_var_negation;
use crate::lit::lemma_negate_distinct;
use crate::lit::Lit;

verus! {

/// Activity ceiling: any activity above it triggers a rescale.
pub const ACT_LIMIT: u64 = 0x4000_0000_0000_0000;

/// Divisor applied to every activity and to the increment on a rescale.
pub const ACT_RESCALE_DIV: u64 = 0x1_0000_0000;

/// Initial bump increment.
pub const ACT_INIT_INC: u64 = 0x10_0000;

/// Decay denominator: decaying grows the increment by `inc / 999`, the
/// fixed-point form of dividing it by 0.999.
pub const ACT_DECAY_DEN: u64 = 999;

/// Tuning parameters of the clause database.
pub struct ClausesParams {
    /// The activity increment added by one bump.
    pub cla_inc: u64,
}

impl Default for ClausesParams {
    fn default() -> (r: ClausesParams)
        ensures
            r.cla_inc == ACT_INIT_INC,
    {
        ClausesParams { cla_inc: ACT_INIT_INC }
    }
}

/// A deduplicated, order-irrelevant set of literals with an activity score
/// and a learnt/original flag.
pub struct Clause {
    pub activity: u64,
    pub learnt: bool,
    pub disjuncts: Vec<Lit>,
}

/// Literal codes strictly increase: sorted with no duplicate.
pub open spec fn sorted_unique(s: Seq<Lit>) -> bool {
    forall|i: int, j: int|
        0 <= i < j < s.len() ==> (#[trigger] s[i]).spec_code() < (#[trigger] s[j]).spec_code()
}

/// The set holds some literal together with its negation, making a clause
/// trivially satisfied.
pub open spec fn has_complementary_pair(s: Set<Lit>) -> bool {
    exists|l: Lit| s.contains(l) && s.contains(#[trigger] l.spec_negate())
}

/// What `simplify` leaves behind: an empty clause when the input was
/// trivially satisfied, otherwise the sorted duplicate-free form of the same
/// literal set.
pub open spec fn simplified_form(pre: Seq<Lit>, post: Seq<Lit>) -> bool {
    if has_complementary_pair(pre.to_set()) {
        post.len() == 0
    } else {
        sorted_unique(post) && post.to_set() == pre.to_set()
    }
}

/// Inserting into a sequence adds exactly one element to its set.
proof fn lemma_insert_to_set(s: Seq<Lit>, p: int, x: Lit)
    requires
        0 <= p <= s.len(),
    ensures
        s.insert(p, x).to_set() == s.to_set().insert(x),
{
    let s2 = s.insert(p, x);
    assert forall|y: Lit| s2.to_set().contains(y) implies s.to_set().contains(y) || y == x by {
        let i = choose|i: int| 0 <= i < s2.len() && s2[i] == y;
        if i < p {
            assert(s[i] == y);
        } else if i > p {
            assert(s[i - 1] == y);
        }
    }
    assert forall|y: Lit| s.to_set().contains(y) implies s2.to_set().contains(y) by {
        let i = choose|i: int| 0 <= i < s.len() && s[i] == y;
        if i < p {
            assert(s2[i] == y);
        } else {
            assert(s2[i + 1] == y);
        }
    }
    assert(s2.to_set().contains(x)) by {
        assert(s2[p] == x);
    }
    assert(s2.to_set() =~= s.to_set().insert(x));
}

impl Clause {
    pub fn new(lits: &[Lit], learnt: bool) -> (c: Clause)
        ensures
            c.activity == 0,
            c.learnt == learnt,
            c.disjuncts@ == lits@,
    {
        let mut disjuncts: Vec<Lit> = Vec::new();
        let mut i: usize = 0;
        while i < lits.len()
            invariant
                i <= lits@.len(),
                disjuncts@ == lits@.take(i as int),
            decreases lits@.len() - i,
        {
            disjuncts.push(lits[i]);
            proof {
                assert(lits@.take(i + 1) =~= lits@.take(i as int).push(lits@[i as int]));
            }
            i += 1;
        }
        proof {
            assert(lits@.take(lits@.len() as int) =~= lits@);
        }
        Clause { activity: 0, learnt, disjuncts }
    }

    /// Sorts and deduplicates the literals; a clause holding a literal and
    /// its negation is trivially satisfied and is emptied instead.
    pub fn simplify(&mut self)
        ensures
            final(self).learnt == old(self).learnt,
            final(self).activity == old(self).activity,
            simplified_form(old(self).disjuncts@, final(self).disjuncts@),
    {
        let ghost pre = old(self).disjuncts@;
        let mut out: Vec<Lit> = Vec::new();
        let mut i: usize = 0;
        // one pass: insert each literal at its sorted position, skipping
        // duplicates; a sorted duplicate-free sequence over a given set is
        // unique, so this is sorting followed by deduplication
        while i < self.disjuncts.len()
            invariant
                i <= self.disjuncts@.len(),
                self.disjuncts@ == pre,
                self.learnt == old(self).learnt,
                self.activity == old(self).activity,
                sorted_unique(out@),
                out@.to_set() == pre.take(i as int).to_set(),
            decreases pre.len() - i,
        {
            let l = self.disjuncts[i];
            let mut p: usize = 0;
            while p < out.len() && out[p].code() < l.code()
                invariant
                    p <= out@.len(),
                    forall|q: int| 0 <= q < p ==> (#[trigger] out@[q]).spec_code() < l.spec_code(),
                    sorted_unique(out@),
                decreases out@.len() - p,
            {
                p += 1;
            }
            let ghost out0 = out@;
            if p == out.len() || out[p].code() != l.code() {
                out.insert(p, l);
                proof {
                    lemma_insert_to_set(out0, p as int, l);
                    assert forall|a: int, b: int| 0 <= a < b < out@.len() implies
                        (#[trigger] out@[a]).spec_code() < (#[trigger] out@[b]).spec_code() by {
                        if b < p {
                            assert(out@[a] == out0[a] && out@[b] == out0[b]);
                        } else if a > p {
                            assert(out@[a] == out0[a - 1] && out@[b] == out0[b - 1]);
                        } else if a < p && b == p {
                            assert(out@[a] == out0[a]);
                        } else if a == p && b > p {
                            assert(out@[b] == out0[b - 1]);
                        } else if a < p && b > p {
                            assert(out@[a] == out0[a] && out@[b] == out0[b - 1]);
                        }
                    }
                }
            } else {
                proof {
                    crate::lit::lemma_lit_code_injective(out0[p as int], l);
                    assert(out@.to_set().contains(l)) by {
                        assert(out@[p as int] == l);
                    }
                    assert(out@.to_set() =~= out0.to_set().insert(l));
                }
            }
            proof {
                assert(pre.take(i + 1) =~= pre.take(i as int).push(pre[i as int]));
                lemma_insert_to_set(pre.take(i as int), i as int, pre[i as int]);
                assert(pre.take(i as int).insert(i as int, pre[i as int]) =~= pre.take(i + 1));
            }
            i += 1;
        }
        proof {
            assert(pre.take(pre.len() as int) =~= pre);
        }
        self.disjuncts = out;
        // a literal and its negation have consecutive codes, so in the
        // strictly sorted form they would be adjacent with the same variable
        let n = self.disjuncts.len();
        let mut k: usize = 0;
        while n > 0 && k < n - 1
            invariant
                pre == old(self).disjuncts@,
                self.learnt == old(self).learnt,
                self.activity == old(self).activity,
                sorted_unique(self.disjuncts@),
                self.disjuncts@.to_set() == pre.to_set(),
                n == self.disjuncts@.len(),
                k <= self.disjuncts@.len(),
                forall|q: int|
                    0 <= q < k ==> (#[trigger] self.disjuncts@[q]).spec_var()
                        != self.disjuncts@[q + 1].spec_var(),
            decreases self.disjuncts@.len() - k,
        {
            if self.disjuncts[k].variable() == self.disjuncts[k + 1].variable() {
                proof {
                    let a = self.disjuncts@[k as int];
                    let b = self.disjuncts@[k + 1];
                    assert(a.spec_code() < b.spec_code());
                    lemma_same_var_negation(a, b);
                    assert(self.disjuncts@.to_set().contains(a)) by {
                        assert(self.disjuncts@[k as int] == a);
                    }
                    assert(self.disjuncts@.to_set().contains(b)) by {
                        assert(self.disjuncts@[k + 1] == b);
                    }
                    assert(pre.to_set().contains(a) && pre.to_set().contains(a.spec_negate()));
                    assert(has_complementary_pair(pre.to_set()));
                }
                self.disjuncts = Vec::new();
                proof {
                    assert(self.disjuncts@.len() == 0);
                    assert(simplified_form(pre, self.disjuncts@));
                }
                return ;
            }
            k += 1;
        }
        proof {
            let s = self.disjuncts@;
            assert forall|l: Lit| !(s.to_set().contains(l) && s.to_set().contains(
                l.spec_negate(),
            )) by {
                if s.to_set().contains(l) && s.to_set().contains(l.spec_negate()) {
                    lemma_negate_distinct(l);
                    let i1 = choose|i: int| 0 <= i < s.len() && s[i] == l;
                    let i2 = choose|i: int| 0 <= i < s.len() && s[i] == l.spec_negate();
                    lemma_same_var_negation(l, l.spec_negate());
                    if i1 < i2 {
                        assert(i2 == i1 + 1) by {
                            if i1 + 1 < i2 {
                                assert(s[i1].spec_code() < s[i1 + 1].spec_code()
                                    < s[i2].spec_code());
                            }
                        }
                        assert(s[i1].spec_var() == s[i1 + 1].spec_var());
                    } else {
                        assert(i2 < i1);
                        assert(i1 == i2 + 1) by {
                            if i2 + 1 < i1 {
                                assert(s[i2].spec_code() < s[i2 + 1].spec_code()
                                    < s[i1].spec_code());
                            }
                        }
                        assert(s[i2].spec_var() == s[i2 + 1].spec_var());
                    }
                }
            }
            assert(!has_complementary_pair(pre.to_set()));
        }
    }
}


/// Stable dense handle of a clause slot; reusable after the slot is freed.
#[derive(Clone, Copy, PartialEq, Eq, Structural, Hash, PartialOrd, Ord, Debug)]
pub struct ClauseId(pub usize);

/// The number of live (occupied) slots.
pub open spec fn count_live(s: Seq<Option<Clause>>) -> nat
    decreases s.len(),
{
    if s.len() == 0 {
        0
    } else {
        count_live(s.drop_last()) + if s.last() is Some {
            1nat
        } else {
            0nat
        }
    }
}

/// The number of live original (non-learnt) clauses.
pub open spec fn count_fixed(s: Seq<Option<Clause>>) -> nat
    decreases s.len(),
{
    if s.len() == 0 {
        0
    } else {
        count_fixed(s.drop_last()) + if s.last() is Some && !s.last().unwrap().learnt {
            1nat
        } else {
            0nat
        }
    }
}

/// Slotwise agreement on occupancy and the learnt flag gives equal counts.
pub proof fn lemma_counts_pointwise(s1: Seq<Option<Clause>>, s2: Seq<Option<Clause>>)
    requires
        s1.len() == s2.len(),
        forall|i: int|
            0 <= i < s1.len() ==> ((#[trigger] s1[i]) is Some <==> (#[trigger] s2[i]) is Some),
        forall|i: int|
            0 <= i < s1.len() && s1[i] is Some ==> (#[trigger] s1[i]).unwrap().learnt == (
            #[trigger] s2[i]).unwrap().learnt,
    ensures
        count_live(s1) == count_live(s2),
        count_fixed(s1) == count_fixed(s2),
    decreases s1.len(),
{
    if s1.len() > 0 {
        lemma_counts_pointwise(s1.drop_last(), s2.drop_last());
    }
}

/// How an update of one slot moves the counts.
pub proof fn lemma_counts_update(s: Seq<Option<Clause>>, i: int, v: Option<Clause>)
    requires
        0 <= i < s.len(),
    ensures
        count_live(s.update(i, v)) == count_live(s) - (if s[i] is Some {
            1int
        } else {
            0int
        }) + (if v is Some {
            1int
        } else {
            0int
        }),
        count_fixed(s.update(i, v)) == count_fixed(s) - (if s[i] is Some && !s[i].unwrap().learnt {
            1int
        } else {
            0int
        }) + (if v is Some && !v.unwrap().learnt {
            1int
        } else {
            0int
        }),
    decreases s.len(),
{
    if i == s.len() - 1 {
        assert(s.update(i, v).drop_last() =~= s.drop_last());
    } else {
        assert(s.update(i, v).drop_last() =~= s.drop_last().update(i, v));
        lemma_counts_update(s.drop_last(), i, v);
    }
}

/// How appending one slot moves the counts.
pub proof fn lemma_counts_push(s: Seq<Option<Clause>>, v: Option<Clause>)
    ensures
        count_live(s.push(v)) == count_live(s) + (if v is Some {
            1int
        } else {
            0int
        }),
        count_fixed(s.push(v)) == count_fixed(s) + (if v is Some && !v.unwrap().learnt {
            1int
        } else {
            0int
        }),
{
    assert(s.push(v).drop_last() =~= s);
}

/// There are never more original clauses than clauses.
pub proof fn lemma_count_fixed_le(s: Seq<Option<Clause>>)
    ensures
        count_fixed(s) <= count_live(s),
    decreases s.len(),
{
    if s.len() > 0 {
        lemma_count_fixed_le(s.drop_last());
    }
}

/// The same clause with another activity score.
pub open spec fn with_activity(c: Clause, a: u64) -> Clause {
    Clause { activity: a, learnt: c.learnt, disjuncts: c.disjuncts }
}

/// The increment after a rescale: divided like the activities, but floored
/// at 1 so that decaying keeps growing it and later bumps stay effective.
pub open spec fn rescaled_inc(inc: u64) -> u64 {
    if inc / ACT_RESCALE_DIV == 0 {
        1u64
    } else {
        inc / ACT_RESCALE_DIV
    }
}

/// Every live activity divided by the rescale divisor.
pub open spec fn rescaled(s: Seq<Option<Clause>>) -> Seq<Option<Clause>> {
    Seq::new(
        s.len(),
        |i: int|
            match s[i] {
                Some(c) => Some(with_activity(c, c.activity / ACT_RESCALE_DIV)),
                None => None,
            },
    )
}

/// Dividing all activities by one positive divisor preserves their relative
/// order: rescaling never reorders clauses.
pub proof fn lemma_rescale_preserves_order(s: Seq<Option<Clause>>, i: int, j: int)
    requires
        0 <= i < s.len() && s[i] is Some,
        0 <= j < s.len() && s[j] is Some,
        s[i].unwrap().activity <= s[j].unwrap().activity,
    ensures
        rescaled(s)[i].unwrap().activity <= rescaled(s)[j].unwrap().activity,
{
    lemma_div_is_ordered(
        s[i].unwrap().activity as int,
        s[j].unwrap().activity as int,
        ACT_RESCALE_DIV as int,
    );
}

/// The ids of the live slots among the first `n`, in increasing order.
pub open spec fn live_ids(s: Seq<Option<Clause>>, n: int) -> Seq<ClauseId>
    decreases n,
{
    if n <= 0 {
        Seq::empty()
    } else {
        live_ids(s, n - 1) + if s[n - 1] is Some {
            seq![ClauseId((n - 1) as usize)]
        } else {
            Seq::empty()
        }
    }
}

/// Original and learnt clauses in shared slotted storage with a
/// first-possibly-free cursor.
pub struct ClauseDB {
    params: ClausesParams,
    num_fixed: usize,
    num_clauses: usize,
    first_possibly_free: usize,
    clauses: Vec<Option<Clause>>,
}

impl ClauseDB {
    /// The slots: `None` is a freed slot, skipped by iteration.
    pub closed spec fn spec_clauses(self) -> Seq<Option<Clause>> {
        self.clauses@
    }

    /// The current activity increment.
    pub closed spec fn spec_inc(self) -> u64 {
        self.params.cla_inc
    }

    /// Slot `i` holds a clause.
    pub open spec fn live(self, i: int) -> bool {
        0 <= i < self.spec_clauses().len() && self.spec_clauses()[i] is Some
    }

    /// The clause in live slot `i`.
    pub open spec fn clause_at(self, i: int) -> Clause {
        self.spec_clauses()[i].unwrap()
    }

    /// The counters cache the true counts, the cursor never points past a
    /// free slot, and all activities are on the bounded fixed-point scale.
    pub closed spec fn wf(self) -> bool {
        &&& self.num_clauses == count_live(self.clauses@)
        &&& self.num_fixed == count_fixed(self.clauses@)
        &&& self.first_possibly_free <= self.clauses@.len()
        &&& forall|i: int| 0 <= i < self.first_possibly_free ==> (#[trigger] self.clauses@[i]) is Some
        &&& self.params.cla_inc <= ACT_LIMIT
        &&& forall|i: int|
            0 <= i < self.clauses@.len() && (#[trigger] self.clauses@[i]) is Some
                ==> self.clauses@[i].unwrap().activity <= ACT_LIMIT
    }

    /// Well-formedness seen from outside: what `wf` guarantees about the
    /// public view.
    pub proof fn lemma_wf_bounds(self)
        requires
            self.wf(),
        ensures
            self.spec_inc() <= ACT_LIMIT,
            forall|i: int| self.live(i) ==> self.clause_at(i).activity <= ACT_LIMIT,
    {
    }

    pub fn new(params: ClausesParams) -> (db: ClauseDB)
        requires
            params.cla_inc <= ACT_LIMIT,
        ensures
            db.wf(),
            db.spec_clauses() =~= Seq::<Option<Clause>>::empty(),
            db.spec_inc() == params.cla_inc,
    {
        ClauseDB {
            params,
            num_fixed: 0,
            num_clauses: 0,
            first_possibly_free: 0,
            clauses: Vec::new(),
        }
    }

    /// The number of live clauses, originals and learnt together.
    pub fn num_clauses(&self) -> (n: usize)
        requires
            self.wf(),
        ensures
            n == count_live(self.spec_clauses()),
    {
        self.num_clauses
    }

    /// The number of live learnt clauses.
    pub fn num_learnt(&self) -> (n: usize)
        requires
            self.wf(),
        ensures
            n == count_live(self.spec_clauses()) - count_fixed(self.spec_clauses()),
    {
        proof {
            lemma_count_fixed_le(self.clauses@);
        }
        self.num_clauses - self.num_fixed
    }

    /// The clause in a live slot.
    pub fn clause(&self, id: ClauseId) -> (c: &Clause)
        requires
            self.live(id.0 as int),
        ensures
            *c == self.clause_at(id.0 as int),
    {
        match &self.clauses[id.0] {
            Some(c) => c,
            None => vstd::pervasive::unreached(),
        }
    }

    /// The ids of all live clauses, in increasing order; freed slots are
    /// skipped.
    pub fn all_clauses(&self) -> (r: Vec<ClauseId>)
        ensures
            r@ == live_ids(self.spec_clauses(), self.spec_clauses().len() as int),
    {
        let mut r: Vec<ClauseId> = Vec::new();
        let mut i: usize = 0;
        while i < self.clauses.len()
            invariant
                i <= self.clauses@.len(),
                r@ == live_ids(self.clauses@, i as int),
            decreases self.clauses@.len() - i,
        {
            if self.clauses[i].is_some() {
                r.push(ClauseId(i));
                proof {
                    assert(r@ =~= live_ids(self.clauses@, i as int) + seq![ClauseId(i)]);
                }
            } else {
                proof {
                    assert(live_ids(self.clauses@, i + 1) =~= live_ids(self.clauses@, i as int));
                }
            }
            i += 1;
        }
        r
    }

    /// Inserts a clause, optionally simplifying it first, into the first
    /// free slot at or after the cursor, or at the end; returns its stable
    /// id. Original and learnt clauses share storage but are counted apart.
    pub fn add_clause(&mut self, cl: Clause, simplify: bool) -> (id: ClauseId)
        requires
            old(self).wf(),
            old(self).spec_clauses().len() < usize::MAX,
            cl.activity <= ACT_LIMIT,
        ensures
            final(self).wf(),
            final(self).live(id.0 as int),
            final(self).spec_inc() == old(self).spec_inc(),
            id.0 as int == old(self).spec_clauses().len() || old(self).spec_clauses()[id.0 as int]
                is None,
            forall|j: int| 0 <= j < id.0 as int ==> (#[trigger] old(self).spec_clauses()[j])
                is Some,
            final(self).spec_clauses().len() == if id.0 as int == old(self).spec_clauses().len() {
                old(self).spec_clauses().len() + 1
            } else {
                old(self).spec_clauses().len()
            },
            forall|j: int|
                0 <= j < old(self).spec_clauses().len() && j != id.0 as int
                    ==> final(self).spec_clauses()[j] == old(self).spec_clauses()[j],
            final(self).clause_at(id.0 as int).learnt == cl.learnt,
            final(self).clause_at(id.0 as int).activity == cl.activity,
            if simplify {
                simplified_form(cl.disjuncts@, final(self).clause_at(id.0 as int).disjuncts@)
            } else {
                final(self).clause_at(id.0 as int).disjuncts@ == cl.disjuncts@
            },
            count_live(final(self).spec_clauses()) == count_live(old(self).spec_clauses()) + 1,
            count_fixed(final(self).spec_clauses()) == count_fixed(old(self).spec_clauses()) + (
            if cl.learnt {
                0int
            } else {
                1int
            }),
    {
        proof {
            lemma_count_fixed_le(self.clauses@);
            count_live_le_len(self.clauses@);
        }
        self.num_clauses = self.num_clauses + 1;
        if !cl.learnt {
            self.num_fixed = self.num_fixed + 1;
        }
        let mut cl = cl;
        if simplify {
            cl.simplify();
        }
        let start = if self.first_possibly_free > 0 {
            self.first_possibly_free - 1
        } else {
            0
        };
        let mut idx = start;
        while idx < self.clauses.len() && self.clauses[idx].is_some()
            invariant
                start <= idx <= self.clauses@.len(),
                forall|k: int| start <= k < idx ==> (#[trigger] self.clauses@[k]) is Some,
            decreases self.clauses@.len() - idx,
        {
            idx += 1;
        }
        let ghost pre = self.clauses@;
        let id = if idx < self.clauses.len() {
            proof {
                lemma_counts_update(pre, idx as int, Some(cl));
            }
            self.clauses[idx] = Some(cl);
            ClauseId(idx)
        } else {
            proof {
                lemma_counts_push(pre, Some(cl));
            }
            self.clauses.push(Some(cl));
            ClauseId(idx)
        };
        self.first_possibly_free = id.0 + 1;
        id
    }

    /// Adds the current increment to the activity of a live clause; if the
    /// result passes the ceiling, every activity and the increment are
    /// rescaled, preserving their relative order.
    pub fn bump_activity(&mut self, cl: ClauseId)
        requires
            old(self).wf(),
            old(self).live(cl.0 as int),
        ensures
            final(self).wf(),
            ({
                let mid = old(self).spec_clauses().update(
                    cl.0 as int,
                    Some(
                        with_activity(
                            old(self).clause_at(cl.0 as int),
                            (old(self).clause_at(cl.0 as int).activity + old(self).spec_inc())
                                as u64,
                        ),
                    ),
                );
                if old(self).clause_at(cl.0 as int).activity + old(self).spec_inc() > ACT_LIMIT {
                    final(self).spec_clauses() == rescaled(mid) && final(self).spec_inc()
                        == rescaled_inc(old(self).spec_inc())
                } else {
                    final(self).spec_clauses() == mid && final(self).spec_inc() == old(
                        self,
                    ).spec_inc()
                }
            }),
    {
        let inc = self.params.cla_inc;
        let idx = cl.0;
        let ghost pre = self.clauses@;
        proof {
            assert(pre[idx as int].unwrap().activity <= ACT_LIMIT);
        }
        let mut over = false;
        match &mut self.clauses[idx] {
            Some(c) => {
                let a = c.activity;
                c.activity = a + inc;
                over = c.activity > ACT_LIMIT;
            },
            None => {},
        }
        proof {
            lemma_counts_pointwise(pre, self.clauses@);
            assert(self.clauses@ =~= pre.update(
                idx as int,
                Some(
                    with_activity(
                        pre[idx as int].unwrap(),
                        (pre[idx as int].unwrap().activity + old(self).spec_inc()) as u64,
                    ),
                ),
            ));
        }
        if over {
            self.rescale_activities();
        }
    }

    /// Grows the bump increment: the O(1) substitute for decaying every
    /// clause activity. The increment saturates at the activity ceiling.
    pub fn decay_activities(&mut self)
        requires
            old(self).wf(),
        ensures
            final(self).wf(),
            final(self).spec_clauses() == old(self).spec_clauses(),
            final(self).spec_inc() == if old(self).spec_inc() + old(self).spec_inc()
                / ACT_DECAY_DEN > ACT_LIMIT {
                ACT_LIMIT
            } else {
                (old(self).spec_inc() + old(self).spec_inc() / ACT_DECAY_DEN) as u64
            },
    {
        let inc = self.params.cla_inc;
        proof {
            vstd::arithmetic::div_mod::lemma_div_nonincreasing(inc as int, ACT_DECAY_DEN as int);
        }
        let grown = inc + inc / ACT_DECAY_DEN;
        self.params.cla_inc = if grown > ACT_LIMIT {
            ACT_LIMIT
        } else {
            grown
        };
    }

    /// Divides every live activity and the increment by the rescale divisor.
    fn rescale_activities(&mut self)
        requires
            old(self).num_clauses == count_live(old(self).clauses@),
            old(self).num_fixed == count_fixed(old(self).clauses@),
            old(self).first_possibly_free <= old(self).clauses@.len(),
            forall|i: int|
                0 <= i < old(self).first_possibly_free ==> (#[trigger] old(self).clauses@[i])
                    is Some,
        ensures
            final(self).spec_clauses() == rescaled(old(self).spec_clauses()),
            final(self).spec_inc() == rescaled_inc(old(self).spec_inc()),
            final(self).num_clauses == old(self).num_clauses,
            final(self).num_fixed == old(self).num_fixed,
            final(self).first_possibly_free == old(self).first_possibly_free,
            final(self).wf(),
    {
        let ghost pre = self.clauses@;
        let shrunk = self.params.cla_inc / ACT_RESCALE_DIV;
        self.params.cla_inc = if shrunk == 0 {
            1
        } else {
            shrunk
        };
        let mut k: usize = 0;
        while k < self.clauses.len()
            invariant
                pre == old(self).clauses@,
                k <= self.clauses@.len() == pre.len(),
                forall|i: int| 0 <= i < k ==> self.clauses@[i] == rescaled(pre)[i],
                forall|i: int| k <= i < pre.len() ==> self.clauses@[i] == pre[i],
                self.params.cla_inc == rescaled_inc(old(self).params.cla_inc),
                self.num_clauses == old(self).num_clauses,
                self.num_fixed == old(self).num_fixed,
                self.first_possibly_free == old(self).first_possibly_free,
            decreases self.clauses@.len() - k,
        {
            match &mut self.clauses[k] {
                Some(c) => {
                    let a = c.activity;
                    c.activity = a / ACT_RESCALE_DIV;
                },
                None => {},
            }
            k += 1;
        }
        proof {
            assert(self.clauses@ =~= rescaled(pre));
            lemma_counts_pointwise(pre, self.clauses@);
            assert forall|i: int|
                0 <= i < self.clauses@.len() && (#[trigger] self.clauses@[i]) is Some implies
                self.clauses@[i].unwrap().activity <= ACT_LIMIT by {
                vstd::arithmetic::div_mod::lemma_div_is_ordered(
                    pre[i].unwrap().activity as int,
                    u64::MAX as int,
                    ACT_RESCALE_DIV as int,
                );
            }
        }
    }
}

/// There are never more live slots than slots.
pub proof fn count_live_le_len(s: Seq<Option<Clause>>)
    ensures
        count_live(s) <= s.len(),
    decreases s.len(),
{
    if s.len() > 0 {
        count_live_le_len(s.drop_last());
    }
}



/// The negated literal's packed code: where the watch entries of a clause
/// watching `l` are stored.
pub open spec fn watch_code(l: Lit) -> int {
    (l.spec_code() ^ 1u32) as int
}

/// How many literals of a clause are watched: the first two, or fewer when
/// the clause is shorter.
pub open spec fn watch_count(c: Clause) -> int {
    if c.disjuncts@.len() < 2 {
        c.disjuncts@.len() as int
    } else {
        2
    }
}

/// Watch list `w` is one of the (up to two) lists this clause is watched in.
pub open spec fn is_watch_slot(c: Clause, w: int) -> bool {
    exists|k: int| 0 <= k < watch_count(c) && w == watch_code(#[trigger] c.disjuncts@[k])
}

/// Candidate entry sanity: a live learnt clause, its recorded activity, and
/// an observed "not locked" answer.
pub open spec fn cand_ok<F: Fn(ClauseId) -> bool>(
    locked: F,
    pre: Seq<Option<Clause>>,
    e: (usize, u64),
) -> bool {
    &&& 0 <= e.0 < pre.len()
    &&& pre[e.0 as int] is Some
    &&& pre[e.0 as int].unwrap().learnt
    &&& e.1 == pre[e.0 as int].unwrap().activity
    &&& call_ensures(locked, (ClauseId(e.0),), false)
}

/// Some candidate entry records slot `j`.
pub open spec fn contains_idx(s: Seq<(usize, u64)>, j: int) -> bool {
    exists|t: int| 0 <= t < s.len() && (#[trigger] s[t]).0 == j
}

/// Slot `j` is among the first `t` candidates: the ones reduction removes.
pub open spec fn in_removed(s: Seq<(usize, u64)>, t: int, j: int) -> bool {
    exists|u: int| 0 <= u < t && u < s.len() && (#[trigger] s[u]).0 == j
}

/// One more removal step covers exactly one more slot.
proof fn lemma_in_removed_step(s: Seq<(usize, u64)>, r: int)
    requires
        0 <= r < s.len(),
    ensures
        forall|j: int| in_removed(s, r + 1, j) <==> (in_removed(s, r, j) || s[r].0 == j),
{
    assert forall|j: int| in_removed(s, r + 1, j) implies (in_removed(s, r, j) || s[r].0 == j) by {
        let u = choose|u: int| 0 <= u < r + 1 && u < s.len() && s[u].0 == j;
        if u < r {
            assert(in_removed(s, r, j));
        }
    }
    assert forall|j: int| (in_removed(s, r, j) || s[r].0 == j) implies in_removed(s, r + 1, j) by {
        if in_removed(s, r, j) {
            let u = choose|u: int| 0 <= u < r && u < s.len() && s[u].0 == j;
            assert(0 <= u < r + 1 && u < s.len() && s[u].0 == j);
        } else {
            assert(0 <= r < r + 1 && r < s.len() && s[r].0 == j);
        }
    }
}

/// Inserting a candidate adds exactly one recorded slot.
proof fn lemma_insert_contains_idx(s: Seq<(usize, u64)>, p: int, x: (usize, u64))
    requires
        0 <= p <= s.len(),
    ensures
        forall|j: int| contains_idx(s.insert(p, x), j) <==> (contains_idx(s, j) || x.0 == j),
{
    let s2 = s.insert(p, x);
    assert forall|j: int| contains_idx(s2, j) implies (contains_idx(s, j) || x.0 == j) by {
        let t = choose|t: int| 0 <= t < s2.len() && s2[t].0 == j;
        if t < p {
            assert(s[t] == s2[t]);
        } else if t > p {
            assert(s[t - 1] == s2[t]);
        }
    }
    assert forall|j: int| (contains_idx(s, j) || x.0 == j) implies contains_idx(s2, j) by {
        if contains_idx(s, j) {
            let t = choose|t: int| 0 <= t < s.len() && s[t].0 == j;
            if t < p {
                assert(s2[t].0 == j);
            } else {
                assert(s2[t + 1].0 == j);
            }
        } else {
            assert(s2[p].0 == j);
        }
    }
}

/// Two filters in a row filter by the conjunction.
proof fn lemma_filter_compose(
    s: Seq<ClauseId>,
    p: spec_fn(ClauseId) -> bool,
    q: spec_fn(ClauseId) -> bool,
)
    ensures
        s.filter(p).filter(q) == s.filter(|x: ClauseId| p(x) && q(x)),
    decreases s.len(),
{
    reveal(Seq::filter);
    if s.len() > 0 {
        lemma_filter_compose(s.drop_last(), p, q);
        let sub = s.drop_last().filter(p);
        if p(s.last()) {
            assert(sub.push(s.last()).drop_last() =~= sub);
        }
    }
}

/// Filters by predicates that agree on every element are equal.
proof fn lemma_filter_equiv(
    s: Seq<ClauseId>,
    p: spec_fn(ClauseId) -> bool,
    q: spec_fn(ClauseId) -> bool,
)
    requires
        forall|i: int| 0 <= i < s.len() ==> (p(#[trigger] s[i]) <==> q(s[i])),
    ensures
        s.filter(p) == s.filter(q),
    decreases s.len(),
{
    reveal(Seq::filter);
    if s.len() > 0 {
        lemma_filter_equiv(s.drop_last(), p, q);
    }
}

/// A filter whose predicate holds everywhere changes nothing.
proof fn lemma_filter_true(s: Seq<ClauseId>, p: spec_fn(ClauseId) -> bool)
    requires
        forall|i: int| 0 <= i < s.len() ==> p(#[trigger] s[i]),
    ensures
        s.filter(p) == s,
    decreases s.len(),
{
    reveal(Seq::filter);
    if s.len() > 0 {
        lemma_filter_true(s.drop_last(), p);
        assert(s.drop_last().push(s.last()) =~= s);
    }
}

/// A duplicate-free candidate list that records exactly the live learnt
/// slots is as long as the learnt count.
proof fn lemma_learnt_count(pre: Seq<Option<Clause>>, cand: Seq<(usize, u64)>)
    requires
        forall|t1: int, t2: int|
            0 <= t1 < t2 < cand.len() ==> (#[trigger] cand[t1]).0 != (#[trigger] cand[t2]).0,
        forall|t: int|
            0 <= t < cand.len() ==> 0 <= (#[trigger] cand[t]).0 < pre.len() && pre[cand[t].0 as int]
                is Some && pre[cand[t].0 as int].unwrap().learnt,
        forall|j: int|
            0 <= j < pre.len() && (#[trigger] pre[j]) is Some && pre[j].unwrap().learnt
                ==> contains_idx(cand, j),
    ensures
        cand.len() == count_live(pre) - count_fixed(pre),
    decreases pre.len(),
{
    lemma_count_fixed_le(pre);
    if pre.len() == 0 {
        if cand.len() > 0 {
            assert(0 <= cand[0].0 < pre.len());
        }
    } else {
        let n = pre.len() - 1;
        if pre[n] is Some && pre[n].unwrap().learnt {
            assert(contains_idx(cand, n));
            let u = choose|u: int| 0 <= u < cand.len() && cand[u].0 == n;
            let cand2 = cand.remove(u);
            assert forall|j: int|
                0 <= j < pre.drop_last().len() && (#[trigger] pre.drop_last()[j]) is Some
                    && pre.drop_last()[j].unwrap().learnt implies contains_idx(cand2, j) by {
                assert(pre[j] == pre.drop_last()[j]);
                let t = choose|t: int| 0 <= t < cand.len() && cand[t].0 == j;
                assert(t != u);
                if t < u {
                    assert(cand2[t].0 == j);
                } else {
                    assert(cand2[t - 1].0 == j);
                }
            }
            assert forall|t: int| 0 <= t < cand2.len() implies 0 <= (#[trigger] cand2[t]).0 < pre.drop_last().len()
                && pre.drop_last()[cand2[t].0 as int] is Some
                && pre.drop_last()[cand2[t].0 as int].unwrap().learnt by {
                let orig = if t < u { t } else { t + 1 };
                assert(cand2[t] == cand[orig]);
                assert(cand[orig].0 != cand[u].0);
                assert(cand[orig].0 < pre.len());
                assert(cand[orig].0 != n);
                assert(pre.drop_last()[cand2[t].0 as int] == pre[cand2[t].0 as int]);
            }
            assert forall|t1: int, t2: int| 0 <= t1 < t2 < cand2.len() implies (#[trigger] cand2[t1]).0
                != (#[trigger] cand2[t2]).0 by {
                let o1 = if t1 < u { t1 } else { t1 + 1 };
                let o2 = if t2 < u { t2 } else { t2 + 1 };
                assert(cand2[t1] == cand[o1] && cand2[t2] == cand[o2]);
            }
            lemma_learnt_count(pre.drop_last(), cand2);
        } else {
            assert forall|t: int| 0 <= t < cand.len() implies 0 <= (#[trigger] cand[t]).0
                < pre.drop_last().len() && pre.drop_last()[cand[t].0 as int] is Some
                && pre.drop_last()[cand[t].0 as int].unwrap().learnt by {
                assert(pre[cand[t].0 as int] is Some && pre[cand[t].0 as int].unwrap().learnt);
                assert(cand[t].0 != n);
                assert(pre.drop_last()[cand[t].0 as int] == pre[cand[t].0 as int]);
            }
            assert forall|j: int|
                0 <= j < pre.drop_last().len() && (#[trigger] pre.drop_last()[j]) is Some
                    && pre.drop_last()[j].unwrap().learnt implies contains_idx(cand, j) by {
                assert(pre[j] == pre.drop_last()[j]);
            }
            lemma_learnt_count(pre.drop_last(), cand);
        }
    }
}

/// What one reduction did, witnessed by the sorted candidate list `cand`:
/// the candidates are exactly the live learnt clauses the `locked` predicate
/// released, in nondecreasing activity order; the lower half of them was
/// freed, their watch entries were removed and nothing else changed.
pub open spec fn reduce_post<F: Fn(ClauseId) -> bool>(
    locked: F,
    pre: Seq<Option<Clause>>,
    post: Seq<Option<Clause>>,
    wpre: Seq<Vec<ClauseId>>,
    wpost: Seq<Vec<ClauseId>>,
    cand: Seq<(usize, u64)>,
) -> bool {
    let removed_n = (cand.len() / 2) as int;
    &&& forall|t1: int, t2: int|
        0 <= t1 < t2 < cand.len() ==> (#[trigger] cand[t1]).0 != (#[trigger] cand[t2]).0
    &&& forall|t: int| 0 <= t < cand.len() ==> cand_ok(locked, pre, #[trigger] cand[t])
    &&& forall|j: int|
        0 <= j < pre.len() && (#[trigger] pre[j]) is Some && pre[j].unwrap().learnt
            && !contains_idx(cand, j) ==> call_ensures(locked, (ClauseId(j as usize),), true)
    &&& forall|t1: int, t2: int|
        0 <= t1 < t2 < cand.len() ==> (#[trigger] cand[t1]).1 <= (#[trigger] cand[t2]).1
    &&& post.len() == pre.len()
    &&& forall|j: int|
        0 <= j < pre.len() ==> post[j] == (if in_removed(cand, removed_n, j) {
            None::<Clause>
        } else {
            pre[j]
        })
    &&& wpost.len() == wpre.len()
    &&& forall|w: int|
        0 <= w < wpre.len() ==> (#[trigger] wpost[w])@ == wpre[w]@.filter(
            |c: ClauseId| !in_removed(cand, removed_n, c.0 as int),
        )
    &&& count_live(post) == count_live(pre) - removed_n
    &&& count_fixed(post) == count_fixed(pre)
}

/// With a predicate that never locks anything, one reduction removes exactly
/// half (rounded down) of the learnt clauses and all of the originals stay.
pub proof fn lemma_reduce_unlocked<F: Fn(ClauseId) -> bool>(
    locked: F,
    pre: Seq<Option<Clause>>,
    post: Seq<Option<Clause>>,
    wpre: Seq<Vec<ClauseId>>,
    wpost: Seq<Vec<ClauseId>>,
    cand: Seq<(usize, u64)>,
)
    requires
        reduce_post(locked, pre, post, wpre, wpost, cand),
        forall|id: ClauseId, b: bool| call_ensures(locked, (id,), b) ==> !b,
    ensures
        cand.len() == count_live(pre) - count_fixed(pre),
        count_live(post) == count_live(pre) - (count_live(pre) - count_fixed(pre)) / 2,
        count_fixed(post) == count_fixed(pre),
{
    assert forall|j: int|
        0 <= j < pre.len() && (#[trigger] pre[j]) is Some && pre[j].unwrap().learnt implies
        contains_idx(cand, j) by {
        if !contains_idx(cand, j) {
            assert(call_ensures(locked, (ClauseId(j as usize),), true));
        }
    }
    lemma_learnt_count(pre, cand);
}


/// Removes every entry for clause `id` from watch list `w`, leaving the
/// other entries in order and every other list untouched.
fn remove_watch(watches: &mut Vec<Vec<ClauseId>>, w: usize, id: usize)
    requires
        w < old(watches)@.len(),
    ensures
        final(watches)@.len() == old(watches)@.len(),
        final(watches)@[w as int]@ == old(watches)@[w as int]@.filter(
            |c: ClauseId| c.0 != id,
        ),
        forall|v: int|
            0 <= v < old(watches)@.len() && v != w ==> final(watches)@[v] == old(watches)@[v],
{
    let mut nw: Vec<ClauseId> = Vec::new();
    let n = watches[w].len();
    let mut e: usize = 0;
    while e < n
        invariant
            w < watches@.len(),
            watches@ == old(watches)@,
            e <= n,
            n == watches@[w as int]@.len(),
            nw@ == watches@[w as int]@.take(e as int).filter(|c: ClauseId| c.0 != id),
        decreases n - e,
    {
        let x = watches[w][e];
        let ghost tk = watches@[w as int]@.take(e as int);
        if x.0 != id {
            nw.push(x);
        }
        proof {
            reveal(Seq::filter);
            assert(watches@[w as int]@.take(e + 1) =~= tk.push(x));
            assert(tk.push(x).drop_last() =~= tk);
        }
        e += 1;
    }
    proof {
        assert(watches@[w as int]@.take(n as int) =~= watches@[w as int]@);
    }
    watches[w] = nw;
}

impl ClauseDB {
    /// Removes the lower half, by activity, of the learnt clauses that the
    /// driver's `locked` predicate releases: their slots are freed, their
    /// entries are removed from the watch lists of their (up to two) watched
    /// literals, and the free-slot cursor is reset. Original and locked
    /// clauses are never touched. The witness `cand` in the postcondition is
    /// the sorted candidate list the reduction worked from.
    pub fn reduce_db<F: Fn(ClauseId) -> bool>(
        &mut self,
        locked: F,
        watches: &mut Vec<Vec<ClauseId>>,
    )
        requires
            old(self).wf(),
            forall|i: int|
                old(self).live(i) && old(self).clause_at(i).learnt ==> call_requires(
                    locked,
                    (ClauseId(i as usize),),
                ),
            forall|i: int, k: int|
                old(self).live(i) && old(self).clause_at(i).learnt && 0 <= k < watch_count(
                    old(self).clause_at(i),
                ) ==> 0 <= watch_code(#[trigger] old(self).clause_at(i).disjuncts@[k]) < old(
                    watches,
                )@.len(),
            forall|w: int, e: int|
                0 <= w < old(watches)@.len() && 0 <= e < old(watches)@[w]@.len() && old(self).live(
                    (#[trigger] old(watches)@[w]@[e]).0 as int,
                ) && old(self).clause_at(old(watches)@[w]@[e].0 as int).learnt ==> is_watch_slot(
                    old(self).clause_at(old(watches)@[w]@[e].0 as int),
                    w,
                ),
        ensures
            final(self).wf(),
            final(self).spec_inc() == old(self).spec_inc(),
            final(self).spec_clauses().len() == old(self).spec_clauses().len(),
            final(watches)@.len() == old(watches)@.len(),
            exists|cand: Seq<(usize, u64)>|
                reduce_post(
                    locked,
                    old(self).spec_clauses(),
                    final(self).spec_clauses(),
                    old(watches)@,
                    final(watches)@,
                    cand,
                ),
    {
        let ghost pre = old(self).clauses@;
        let ghost wpre = old(watches)@;
        // collect the live learnt clauses the predicate releases, in
        // increasing slot order
        let mut cands: Vec<(usize, u64)> = Vec::new();
        proof {
            assert forall|idx: int|
                0 <= idx < pre.len() && (#[trigger] pre[idx]) is Some
                    && pre[idx].unwrap().learnt implies call_requires(
                locked,
                (ClauseId(idx as usize),),
            ) by {
                assert(old(self).live(idx) && old(self).clause_at(idx).learnt);
            }
        }
        let mut i: usize = 0;
        while i < self.clauses.len()
            invariant
                pre == old(self).clauses@,
                self.clauses@ == pre,
                self.num_clauses == old(self).num_clauses,
                self.num_fixed == old(self).num_fixed,
                self.first_possibly_free == old(self).first_possibly_free,
                self.params.cla_inc == old(self).params.cla_inc,
                watches@ == wpre,
                i <= pre.len(),
                forall|idx: int|
                    0 <= idx < pre.len() && (#[trigger] pre[idx]) is Some
                        && pre[idx].unwrap().learnt ==> call_requires(
                        locked,
                        (ClauseId(idx as usize),),
                    ),
                forall|t: int| 0 <= t < cands@.len() ==> cand_ok(locked, pre, #[trigger] cands@[t]),
                forall|t: int| 0 <= t < cands@.len() ==> (#[trigger] cands@[t]).0 < i,
                forall|t1: int, t2: int|
                    0 <= t1 < t2 < cands@.len() ==> (#[trigger] cands@[t1]).0 < (
                    #[trigger] cands@[t2]).0,
                forall|j: int|
                    0 <= j < i && (#[trigger] pre[j]) is Some && pre[j].unwrap().learnt
                        && !contains_idx(cands@, j) ==> call_ensures(
                        locked,
                        (ClauseId(j as usize),),
                        true,
                    ),
            decreases pre.len() - i,
        {
            let mut is_cand = false;
            let mut act: u64 = 0;
            match &self.clauses[i] {
                Some(c) => {
                    is_cand = c.learnt;
                    act = c.activity;
                },
                None => {},
            }
            let ghost cands0 = cands@;
            if is_cand {
                let lk = locked(ClauseId(i));
                if !lk {
                    cands.push((i, act));
                    proof {
                        assert(cands@ =~= cands0.insert(cands0.len() as int, (i, act)));
                        lemma_insert_contains_idx(cands0, cands0.len() as int, (i, act));
                        assert(contains_idx(cands@, i as int)) by {
                            assert((cands@[cands@.len() - 1]).0 == i);
                        }
                    }
                } else {
                    proof {
                        assert(call_ensures(locked, (ClauseId(i),), true));
                    }
                }
            } else {
                proof {
                    assert(!(pre[i as int] is Some && pre[i as int].unwrap().learnt));
                }
            }
            proof {
                assert forall|j: int|
                    0 <= j < i + 1 && (#[trigger] pre[j]) is Some && pre[j].unwrap().learnt
                        && !contains_idx(cands@, j) implies call_ensures(
                    locked,
                    (ClauseId(j as usize),),
                    true,
                ) by {
                    if j < i {
                        if contains_idx(cands0, j) {
                            let t = choose|t: int| 0 <= t < cands0.len() && (#[trigger] cands0[t]).0 == j;
                            assert(cands@[t].0 == j);
                            assert(contains_idx(cands@, j));
                        }
                    }
                }
            }
            i += 1;
        }
        // sort the candidates by activity, keeping every recorded slot
        let ghost cands0 = cands@;
        let mut sorted: Vec<(usize, u64)> = Vec::new();
        let mut t: usize = 0;
        while t < cands.len()
            invariant
                pre == old(self).clauses@,
                self.clauses@ == pre,
                self.num_clauses == old(self).num_clauses,
                self.num_fixed == old(self).num_fixed,
                self.first_possibly_free == old(self).first_possibly_free,
                self.params.cla_inc == old(self).params.cla_inc,
                watches@ == wpre,
                cands@ == cands0,
                t <= cands0.len(),
                sorted@.len() == t,
                forall|u: int| 0 <= u < sorted@.len() ==> cand_ok(locked, pre, #[trigger] sorted@[u]),
                forall|u1: int, u2: int|
                    0 <= u1 < u2 < sorted@.len() ==> (#[trigger] sorted@[u1]).1 <= (
                    #[trigger] sorted@[u2]).1,
                forall|u1: int, u2: int|
                    0 <= u1 < u2 < sorted@.len() ==> (#[trigger] sorted@[u1]).0 != (
                    #[trigger] sorted@[u2]).0,
                forall|j: int| contains_idx(sorted@, j) <==> contains_idx(cands0.take(t as int), j),
                forall|t1: int, t2: int|
                    0 <= t1 < t2 < cands0.len() ==> (#[trigger] cands0[t1]).0 < (
                    #[trigger] cands0[t2]).0,
                forall|u: int| 0 <= u < cands0.len() ==> cand_ok(locked, pre, #[trigger] cands0[u]),
            decreases cands0.len() - t,
        {
            let x = cands[t];
            let mut p: usize = 0;
            while p < sorted.len() && sorted[p].1 <= x.1
                invariant
                    p <= sorted@.len(),
                    forall|q: int| 0 <= q < p ==> (#[trigger] sorted@[q]).1 <= x.1,
                decreases sorted@.len() - p,
            {
                p += 1;
            }
            let ghost sorted0 = sorted@;
            sorted.insert(p, x);
            proof {
                lemma_insert_contains_idx(sorted0, p as int, x);
                assert forall|u1: int, u2: int| 0 <= u1 < u2 < sorted@.len() implies
                    (#[trigger] sorted@[u1]).1 <= (#[trigger] sorted@[u2]).1 by {
                    if u2 < p {
                        assert(sorted@[u1] == sorted0[u1] && sorted@[u2] == sorted0[u2]);
                    } else if u1 > p {
                        assert(sorted@[u1] == sorted0[u1 - 1] && sorted@[u2] == sorted0[u2 - 1]);
                    } else if u1 < p && u2 == p {
                        assert(sorted@[u1] == sorted0[u1]);
                    } else if u1 == p && u2 > p {
                        assert(sorted@[u2] == sorted0[u2 - 1]);
                    } else if u1 < p && u2 > p {
                        assert(sorted@[u1] == sorted0[u1] && sorted@[u2] == sorted0[u2 - 1]);
                    }
                }
                // the inserted slot is new: candidates were collected in
                // strictly increasing slot order
                assert(!contains_idx(cands0.take(t as int), x.0 as int)) by {
                    if contains_idx(cands0.take(t as int), x.0 as int) {
                        let u = choose|u: int|
                            0 <= u < cands0.take(t as int).len() && (#[trigger] cands0.take(
                                t as int,
                            )[u]).0 == x.0 as int;
                        assert(cands0[u].0 < cands0[t as int].0);
                    }
                }
                assert forall|u1: int, u2: int| 0 <= u1 < u2 < sorted@.len() implies
                    (#[trigger] sorted@[u1]).0 != (#[trigger] sorted@[u2]).0 by {
                    let o1 = if u1 < p { u1 } else { u1 - 1 };
                    let o2 = if u2 < p { u2 } else { u2 - 1 };
                    if u1 != p && u2 != p {
                        assert(sorted@[u1] == sorted0[o1] && sorted@[u2] == sorted0[o2]);
                    } else if u1 == p {
                        assert(sorted@[u2] == sorted0[o2]);
                        assert(contains_idx(sorted0, sorted0[o2].0 as int));
                    } else {
                        assert(sorted@[u1] == sorted0[o1]);
                        assert(contains_idx(sorted0, sorted0[o1].0 as int));
                    }
                }
                assert(cands0.take(t + 1) =~= cands0.take(t as int).push(x));
                lemma_insert_contains_idx(cands0.take(t as int), t as int, x);
                assert(cands0.take(t as int).insert(t as int, x) =~= cands0.take(t + 1));
                assert forall|j: int| contains_idx(sorted@, j) <==> contains_idx(
                    cands0.take(t + 1),
                    j,
                ) by {
                    assert(contains_idx(sorted@, j) <==> (contains_idx(sorted0, j) || x.0 == j));
                    assert(contains_idx(cands0.take(t + 1), j) <==> (contains_idx(
                        cands0.take(t as int),
                        j,
                    ) || x.0 == j));
                }
            }
            t += 1;
        }
        proof {
            assert(cands0.take(cands0.len() as int) =~= cands0);
        }
        // free the lower half and drop their watch entries
        let ghost srt = sorted@;
        proof {
            assert forall|w: int| 0 <= w < wpre.len() implies (#[trigger] watches@[w])@
                == wpre[w]@.filter(|c: ClauseId| !in_removed(srt, 0int, c.0 as int)) by {
                assert forall|e: int| 0 <= e < wpre[w]@.len() implies (|c: ClauseId|
                    !in_removed(srt, 0int, c.0 as int))(#[trigger] wpre[w]@[e]) by {
                    assert(!in_removed(srt, 0int, wpre[w]@[e].0 as int));
                }
                lemma_filter_true(wpre[w]@, |c: ClauseId| !in_removed(srt, 0int, c.0 as int));
            }
            assert forall|idx: int, k: int|
                0 <= idx < pre.len() && (#[trigger] pre[idx]) is Some && pre[idx].unwrap().learnt
                    && 0 <= k < watch_count(pre[idx].unwrap()) implies 0 <= watch_code(
                #[trigger] pre[idx].unwrap().disjuncts@[k],
            ) < wpre.len() by {
                assert(old(self).live(idx) && old(self).clause_at(idx).learnt);
                assert(old(self).clause_at(idx) == pre[idx].unwrap());
            }
            assert forall|w: int, e: int|
                0 <= w < wpre.len() && 0 <= e < wpre[w]@.len() && 0 <= (#[trigger] wpre[w]@[e]).0
                    < pre.len() && pre[wpre[w]@[e].0 as int] is Some && pre[wpre[w]@[e].0
                    as int].unwrap().learnt implies is_watch_slot(
                pre[wpre[w]@[e].0 as int].unwrap(),
                w,
            ) by {
                assert(old(self).live(wpre[w]@[e].0 as int));
                assert(old(watches)@[w]@[e] == wpre[w]@[e]);
            }
        }
        let half = sorted.len() / 2;
        let mut r: usize = 0;
        while r < half
            invariant
                pre == old(self).clauses@,
                wpre == old(watches)@,
                srt == sorted@,
                half == srt.len() / 2,
                r <= half,
                forall|u: int| 0 <= u < srt.len() ==> cand_ok(locked, pre, #[trigger] srt[u]),
                forall|u1: int, u2: int|
                    0 <= u1 < u2 < srt.len() ==> (#[trigger] srt[u1]).0 != (#[trigger] srt[u2]).0,
                self.clauses@.len() == pre.len(),
                forall|j: int|
                    0 <= j < pre.len() ==> self.clauses@[j] == (if in_removed(srt, r as int, j) {
                        None::<Clause>
                    } else {
                        pre[j]
                    }),
                self.num_clauses == count_live(self.clauses@),
                self.num_fixed == count_fixed(self.clauses@),
                count_live(self.clauses@) == count_live(pre) - r,
                count_fixed(self.clauses@) == count_fixed(pre),
                self.params.cla_inc == old(self).params.cla_inc,
                watches@.len() == wpre.len(),
                forall|w: int|
                    0 <= w < wpre.len() ==> (#[trigger] watches@[w])@ == wpre[w]@.filter(
                        |c: ClauseId| !in_removed(srt, r as int, c.0 as int),
                    ),
                forall|idx: int, k: int|
                    0 <= idx < pre.len() && (#[trigger] pre[idx]) is Some
                        && pre[idx].unwrap().learnt && 0 <= k < watch_count(pre[idx].unwrap())
                        ==> 0 <= watch_code(#[trigger] pre[idx].unwrap().disjuncts@[k])
                        < wpre.len(),
                forall|w: int, e: int|
                    0 <= w < wpre.len() && 0 <= e < wpre[w]@.len() && 0 <= (
                    #[trigger] wpre[w]@[e]).0 < pre.len() && pre[wpre[w]@[e].0 as int] is Some
                        && pre[wpre[w]@[e].0 as int].unwrap().learnt ==> is_watch_slot(
                        pre[wpre[w]@[e].0 as int].unwrap(),
                        w,
                    ),
            decreases half - r,
        {
            let (id, _a) = sorted[r];
            proof {
                assert(!in_removed(srt, r as int, id as int)) by {
                    if in_removed(srt, r as int, id as int) {
                        let u = choose|u: int|
                            0 <= u < r && u < srt.len() && (#[trigger] srt[u]).0 == id as int;
                        assert(srt[u].0 != srt[r as int].0);
                    }
                }
                assert(self.clauses@[id as int] == pre[id as int]);
            }
            let ghost clr = pre[id as int].unwrap();
            let ghost base = watches@;
            let ghost pred_r = |c: ClauseId| !in_removed(srt, r as int, c.0 as int);
            let (cnt, l0, l1) = match &self.clauses[id] {
                Some(c) => {
                    if c.disjuncts.len() == 0 {
                        (0usize, None, None)
                    } else if c.disjuncts.len() == 1 {
                        (1usize, Some(c.disjuncts[0]), None::<Lit>)
                    } else {
                        (2usize, Some(c.disjuncts[0]), Some(c.disjuncts[1]))
                    }
                },
                None => (0usize, None, None),
            };
            proof {
                assert(cnt == watch_count(clr));
            }
            if let Some(l) = l0 {
                let wn = l.negate();
                let wi = wn.code() as usize;
                proof {
                    crate::lit::lemma_negate_code(l);
                    assert(wi as int == watch_code(clr.disjuncts@[0]));
                }
                remove_watch(watches, wi, id);
            }
            let ghost mid = watches@;
            if let Some(l) = l1 {
                let wn = l.negate();
                let wi = wn.code() as usize;
                proof {
                    crate::lit::lemma_negate_code(l);
                    assert(wi as int == watch_code(clr.disjuncts@[1]));
                }
                remove_watch(watches, wi, id);
            }
            proof {
                lemma_in_removed_step(srt, r as int);
                let pred_r1 = |c: ClauseId| !in_removed(srt, r + 1, c.0 as int);
                let peq = |c: ClauseId| c.0 != id;
                let pconj = |c: ClauseId| pred_r(c) && peq(c);
                assert forall|w: int| 0 <= w < wpre.len() implies (#[trigger] watches@[w])@
                    == wpre[w]@.filter(pred_r1) by {
                    let wc0 = if cnt >= 1 {
                        watch_code(clr.disjuncts@[0])
                    } else {
                        -1
                    };
                    let wc1 = if cnt >= 2 {
                        watch_code(clr.disjuncts@[1])
                    } else {
                        -1
                    };
                    let touched = (cnt >= 1 && w == wc0) || (cnt >= 2 && w == wc1);
                    if !touched {
                        // `id` never occurs in this list, so the filters agree
                        assert(watches@[w] == base[w]);
                        assert forall|e: int| 0 <= e < wpre[w]@.len() implies (#[trigger] wpre[w]@[e]).0
                            != id by {
                            if wpre[w]@[e].0 == id {
                                assert(is_watch_slot(clr, w));
                                let k = choose|k: int|
                                    0 <= k < watch_count(clr) && w == watch_code(
                                        #[trigger] clr.disjuncts@[k],
                                    );
                                assert(k == 0 || k == 1);
                            }
                        }
                        assert forall|e: int| 0 <= e < wpre[w]@.len() implies (pred_r(
                            #[trigger] wpre[w]@[e],
                        ) <==> pred_r1(wpre[w]@[e])) by {
                            assert(wpre[w]@[e].0 != id);
                        }
                        lemma_filter_equiv(wpre[w]@, pred_r, pred_r1);
                    } else {
                        lemma_filter_compose(wpre[w]@, pred_r, peq);
                        assert forall|e: int| 0 <= e < wpre[w]@.len() implies (pconj(
                            #[trigger] wpre[w]@[e],
                        ) <==> pred_r1(wpre[w]@[e])) by {}
                        lemma_filter_equiv(wpre[w]@, pconj, pred_r1);
                        if cnt >= 1 && w == wc0 {
                            assert(mid[w]@ == base[w]@.filter(peq));
                            assert(mid[w]@ == wpre[w]@.filter(pred_r1));
                            if cnt >= 2 && w == wc1 {
                                // filtered twice: the second pass removes
                                // nothing more
                                assert(watches@[w]@ == mid[w]@.filter(peq));
                                lemma_filter_compose(wpre[w]@, pred_r1, peq);
                                let pconj2 = |c: ClauseId| pred_r1(c) && peq(c);
                                assert forall|e: int| 0 <= e < wpre[w]@.len() implies (pconj2(
                                    #[trigger] wpre[w]@[e],
                                ) <==> pred_r1(wpre[w]@[e])) by {}
                                lemma_filter_equiv(wpre[w]@, pconj2, pred_r1);
                            } else {
                                assert(watches@[w] == mid[w]);
                            }
                        } else {
                            assert(mid[w] == base[w]);
                            assert(watches@[w]@ == mid[w]@.filter(peq));
                        }
                    }
                }
            }
            let ghost cl_pre = self.clauses@;
            self.clauses[id] = None;
            proof {
                lemma_counts_update(cl_pre, id as int, None::<Clause>);
                lemma_in_removed_step(srt, r as int);
                assert forall|j: int| 0 <= j < pre.len() implies self.clauses@[j] == (
                if in_removed(srt, r + 1, j) {
                    None::<Clause>
                } else {
                    pre[j]
                }) by {
                    if j != id as int {
                        assert(self.clauses@[j] == cl_pre[j]);
                    }
                }
            }
            self.num_clauses = self.num_clauses - 1;
            r += 1;
        }
        self.first_possibly_free = 0;
        proof {
            assert forall|j: int|
                0 <= j < pre.len() && (#[trigger] pre[j]) is Some && pre[j].unwrap().learnt
                    && !contains_idx(srt, j) implies call_ensures(
                locked,
                (ClauseId(j as usize),),
                true,
            ) by {
                assert(!contains_idx(cands0, j));
            }
            assert(reduce_post(locked, pre, self.clauses@, wpre, watches@, srt));
            assert(reduce_post(
                locked,
                old(self).spec_clauses(),
                self.spec_clauses(),
                old(watches)@,
                watches@,
                srt,
            ));
        }
    }
}

} // verus!
