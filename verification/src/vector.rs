//! Sparse TF-IDF vectors and cosine-similarity scores.
//!
//! A vector maps each term to the weight `(count / total) * idf`, where
//! `count` is how often the term occurs in the document, `total` is the
//! document's token count and `idf` is the fixed-point inverse document
//! frequency.  Only the integer numerator `count * idf` is stored per term
//! (terms of weight zero are left out); the shared denominator
//! `total * SCALE` is held once.  Cosine similarity is scale-invariant, so
//! every similarity comparison depends on the numerators alone:
//! for vectors `a`, `b` the score is `dot(a, b) / sqrt(mag(a) * mag(b))`
//! over the numerators, and scores are ordered by comparing exact rational
//! squares, never by computing a root.

use vstd::prelude::*;

verus! {

use crate::fraccmp::FracRel;
use crate::fraccmp::compare_fracs;

/// Upper bound on the sum of all numerators of one well-formed vector:
/// at most 4096 tokens, each contributing an IDF below 36907.
pub const SUM_CAP: u64 = 151171072;

/// One stored term with its weight numerator `count * idf`.
pub struct TermWeight {
    pub term: String,
    pub num: u64,
}

/// A sparse TF-IDF vector: distinct terms with positive weight numerators,
/// plus the document's total token count (the weight denominator is
/// `total * SCALE`).
pub struct TfIdfVector {
    pub terms: Vec<TermWeight>,
    pub total: u64,
}

/// The mathematical content of a vector: its (term, numerator) pairs in
/// storage order.
pub type VecModel = Seq<(Seq<char>, u64)>;

/// The numerator stored for term `t`, or zero when `t` is absent.
pub open spec fn lookup(m: VecModel, t: Seq<char>) -> int
    decreases m.len(),
{
    if m.len() == 0 {
        0
    } else if m.last().0 == t {
        m.last().1 as int
    } else {
        lookup(m.drop_last(), t)
    }
}

/// Whether the vector stores the term `t`.
pub open spec fn has_term(m: VecModel, t: Seq<char>) -> bool {
    exists|k: int| 0 <= k < m.len() && m[k].0 == t
}

/// Sum of all numerators.
pub open spec fn sum_nums(m: VecModel) -> int
    decreases m.len(),
{
    if m.len() == 0 {
        0
    } else {
        sum_nums(m.drop_last()) + m.last().1
    }
}

/// Dot product of the numerators: terms absent from either side weigh zero.
pub open spec fn dot(a: VecModel, b: VecModel) -> int
    decreases a.len(),
{
    if a.len() == 0 {
        0
    } else {
        dot(a.drop_last(), b) + a.last().1 * lookup(b, a.last().0)
    }
}

/// Squared magnitude of the numerators.
pub open spec fn mag(m: VecModel) -> int
    decreases m.len(),
{
    if m.len() == 0 {
        0
    } else {
        mag(m.drop_last()) + m.last().1 * m.last().1
    }
}

/// Well-formedness: terms are distinct, numerators positive, and the sum of
/// numerators small enough that every similarity computation fits in `u64`.
pub open spec fn vec_wf(m: VecModel) -> bool {
    &&& forall|i: int, j: int| 0 <= i < j < m.len() ==> m[i].0 != m[j].0
    &&& forall|i: int| 0 <= i < m.len() ==> 1 <= #[trigger] m[i].1
    &&& sum_nums(m) <= SUM_CAP
}

impl TfIdfVector {
    /// The vector's content as (term, numerator) pairs.
    pub open spec fn model(self) -> VecModel {
        self.terms@.map_values(|tw: TermWeight| (tw.term@, tw.num))
    }

    /// Well-formedness of the stored content.
    pub open spec fn wf(self) -> bool {
        vec_wf(self.model())
    }

    /// Number of stored terms.
    pub fn len(&self) -> (n: usize)
        ensures
            n == self.model().len(),
    {
        self.terms.len()
    }

    /// Whether no term carries weight.
    pub fn is_empty(&self) -> (r: bool)
        ensures
            r == (self.model().len() == 0),
    {
        self.terms.len() == 0
    }

    /// The document's total token count.
    pub fn token_total(&self) -> (t: u64)
        ensures
            t == self.total,
    {
        self.total
    }

    /// The weight numerator stored for `t`, if any.
    pub fn num_of(&self, t: &String) -> (r: Option<u64>)
        requires
            self.wf(),
        ensures
            match r {
                Some(n) => has_term(self.model(), t@) && n == lookup(self.model(), t@),
                None => !has_term(self.model(), t@),
            },
    {
        let m = &self.terms;
        let ghost mm = self.model();
        let mut k: usize = 0;
        while k < m.len()
            invariant
                k <= m.len(),
                mm == self.model(),
                vec_wf(mm),
                mm.len() == m.len(),
                forall|j: int| 0 <= j < m.len() ==> mm[j] == (m@[j].term@, m@[j].num),
                forall|j: int| 0 <= j < k ==> mm[j].0 != t@,
            decreases m.len() - k,
        {
            if m[k].term == *t {
                proof {
                    lemma_lookup_at(mm, k as int);
                }
                return Some(m[k].num);
            }
            k = k + 1;
        }
        proof {
            if has_term(mm, t@) {
                let j = choose|j: int| 0 <= j < mm.len() && mm[j].0 == t@;
                assert(false);
            }
        }
        None
    }
}

/// A stored term's numerator is what `lookup` answers, wherever it stands,
/// provided terms are distinct up from that position.
pub proof fn lemma_lookup_at(m: VecModel, k: int)
    requires
        0 <= k < m.len(),
        forall|i: int, j: int| 0 <= i < j < m.len() ==> m[i].0 != m[j].0,
    ensures
        lookup(m, m[k].0) == m[k].1,
        has_term(m, m[k].0),
    decreases m.len(),
{
    if k == m.len() - 1 {
    } else {
        assert(m.last().0 != m[k].0);
        assert(m.drop_last()[k] == m[k]);
        lemma_lookup_at(m.drop_last(), k);
    }
}

/// A term the vector does not store looks up to zero.
pub proof fn lemma_lookup_absent(m: VecModel, t: Seq<char>)
    requires
        !has_term(m, t),
    ensures
        lookup(m, t) == 0,
    decreases m.len(),
{
    if m.len() > 0 {
        assert(m[m.len() - 1].0 != t);
        assert(forall|k: int| 0 <= k < m.len() - 1 ==> #[trigger] m.drop_last()[k].0 == m[k].0);
        lemma_lookup_absent(m.drop_last(), t);
    }
}

/// Lookups are bounded by the sum of numerators, which is itself
/// nonnegative.
pub proof fn lemma_lookup_le_sum(m: VecModel, t: Seq<char>)
    ensures
        0 <= lookup(m, t),
        lookup(m, t) <= sum_nums(m),
        0 <= sum_nums(m),
    decreases m.len(),
{
    if m.len() > 0 {
        lemma_lookup_le_sum(m.drop_last(), t);
    }
}

/// Every stored numerator is bounded by the sum of numerators.
pub proof fn lemma_elem_le_sum(m: VecModel, k: int)
    requires
        0 <= k < m.len(),
    ensures
        m[k].1 <= sum_nums(m),
    decreases m.len(),
{
    lemma_lookup_le_sum(m, Seq::empty());
    if k == m.len() - 1 {
        lemma_lookup_le_sum(m.drop_last(), Seq::empty());
    } else {
        assert(m.drop_last()[k] == m[k]);
        lemma_elem_le_sum(m.drop_last(), k);
    }
}

/// The dot product lies between zero and the product of the numerator sums.
pub proof fn lemma_dot_le(a: VecModel, b: VecModel)
    ensures
        0 <= dot(a, b),
        dot(a, b) <= sum_nums(a) * sum_nums(b),
    decreases a.len(),
{
    lemma_lookup_le_sum(b, Seq::empty());
    if a.len() == 0 {
        assert(sum_nums(a) * sum_nums(b) == 0) by (nonlinear_arith)
            requires
                sum_nums(a) == 0,
        ;
    } else {
        lemma_dot_le(a.drop_last(), b);
        lemma_lookup_le_sum(b, a.last().0);
        lemma_lookup_le_sum(a.drop_last(), Seq::empty());
        assert(0 <= a.last().1 * lookup(b, a.last().0)) by (nonlinear_arith)
            requires
                0 <= a.last().1,
                0 <= lookup(b, a.last().0),
        ;
        assert(sum_nums(a) == sum_nums(a.drop_last()) + a.last().1);
        assert(dot(a.drop_last(), b) + a.last().1 * lookup(b, a.last().0) <= (sum_nums(
            a.drop_last(),
        ) + a.last().1) * sum_nums(b)) by (nonlinear_arith)
            requires
                dot(a.drop_last(), b) <= sum_nums(a.drop_last()) * sum_nums(b),
                lookup(b, a.last().0) <= sum_nums(b),
                0 <= a.last().1,
                0 <= sum_nums(b),
        ;
    }
}

/// The squared magnitude lies between zero and the square of the numerator
/// sum.
pub proof fn lemma_mag_le(m: VecModel)
    ensures
        0 <= mag(m),
        mag(m) <= sum_nums(m) * sum_nums(m),
    decreases m.len(),
{
    if m.len() == 0 {
    } else {
        lemma_mag_le(m.drop_last());
        lemma_lookup_le_sum(m.drop_last(), Seq::empty());
        let s = sum_nums(m.drop_last());
        let n = m.last().1 as int;
        assert(mag(m.drop_last()) + n * n <= (s + n) * (s + n)) by (nonlinear_arith)
            requires
                mag(m.drop_last()) <= s * s,
                0 <= s,
                0 <= n,
        ;
    }
}

/// An empty-magnitude vector is weightless: every lookup is zero and every
/// dot product against it vanishes.
pub proof fn lemma_zero_mag(m: VecModel, other: VecModel)
    requires
        vec_wf(m),
        mag(m) == 0,
    ensures
        m.len() == 0,
        dot(other, m) == 0,
        dot(m, other) == 0,
    decreases other.len(),
{
    if m.len() > 0 {
        let n = m.last().1 as int;
        lemma_mag_le(m.drop_last());
        assert(1 <= n);
        assert(1 <= n * n) by (nonlinear_arith)
            requires
                1 <= n,
        ;
        assert(false);
    }
    if other.len() > 0 {
        lemma_zero_mag(m, other.drop_last());
    }
}

/// Appending one fresh term adds its matched weight to the dot product seen
/// from the other side.
proof fn lemma_dot_push(b: VecModel, a: VecModel, t: Seq<char>, n: u64)
    requires
        forall|i: int, j: int| 0 <= i < j < b.len() ==> b[i].0 != b[j].0,
        !has_term(a, t),
    ensures
        dot(b, a.push((t, n))) == dot(b, a) + (n as int) * lookup(b, t),
    decreases b.len(),
{
    let p = a.push((t, n));
    assert(p.last() == (t, n));
    assert(p.drop_last() =~= a);
    if b.len() == 0 {
    } else {
        let b1 = b.drop_last();
        let bt = b.last().0;
        let bn = b.last().1 as int;
        assert(forall|i: int, j: int| 0 <= i < j < b1.len() ==> b1[i] == b[i] && b1[j] == b[j]);
        lemma_dot_push(b1, a, t, n);
        lemma_lookup_absent(a, t);
        if bt == t {
            assert(!has_term(b1, t)) by {
                if has_term(b1, t) {
                    let k = choose|k: int| 0 <= k < b1.len() && b1[k].0 == t;
                    assert(b[k].0 == t);
                    assert(b[b.len() - 1].0 == t);
                }
            }
            lemma_lookup_absent(b1, t);
            assert(lookup(p, bt) == n as int);
            assert(dot(b, p) == dot(b1, a) + (n as int) * 0 + bn * (n as int));
            assert(lookup(b, t) == bn);
            assert(dot(b, a) == dot(b1, a) + bn * lookup(a, t));
            assert(dot(b, a) == dot(b1, a)) by (nonlinear_arith)
                requires
                    dot(b, a) == dot(b1, a) + bn * lookup(a, t),
                    lookup(a, t) == 0,
            ;
            assert(dot(b, p) == dot(b, a) + (n as int) * lookup(b, t)) by (nonlinear_arith)
                requires
                    dot(b, p) == dot(b1, a) + (n as int) * 0 + bn * (n as int),
                    dot(b, a) == dot(b1, a),
                    lookup(b, t) == bn,
            ;
        } else {
            assert(lookup(p, bt) == lookup(a, bt));
            assert(lookup(b, t) == lookup(b1, t));
            assert(dot(b, p) == dot(b1, p) + bn * lookup(p, bt));
            assert(dot(b, a) == dot(b1, a) + bn * lookup(a, bt));
            assert(dot(b, p) == dot(b, a) + (n as int) * lookup(b, t));
        }
    }
}

/// A dot product against the empty vector vanishes.
proof fn lemma_dot_empty(b: VecModel)
    ensures
        dot(b, Seq::empty()) == 0,
    decreases b.len(),
{
    if b.len() > 0 {
        lemma_dot_empty(b.drop_last());
        assert(lookup(Seq::empty(), b.last().0) == 0);
    }
}

/// The dot product does not depend on which vector drives the sum.
pub proof fn lemma_dot_symmetric(a: VecModel, b: VecModel)
    requires
        forall|i: int, j: int| 0 <= i < j < a.len() ==> a[i].0 != a[j].0,
        forall|i: int, j: int| 0 <= i < j < b.len() ==> b[i].0 != b[j].0,
    ensures
        dot(a, b) == dot(b, a),
    decreases a.len(),
{
    if a.len() == 0 {
        lemma_dot_empty(b);
        assert(a =~= Seq::empty());
    } else {
        let a1 = a.drop_last();
        let t = a.last().0;
        let n = a.last().1;
        assert(forall|i: int, j: int| 0 <= i < j < a1.len() ==> a1[i] == a[i] && a1[j] == a[j]);
        lemma_dot_symmetric(a1, b);
        assert(!has_term(a1, t)) by {
            if has_term(a1, t) {
                let k = choose|k: int| 0 <= k < a1.len() && a1[k].0 == t;
                assert(a[k].0 == t);
                assert(a[a.len() - 1].0 == t);
            }
        }
        lemma_dot_push(b, a1, t, n);
        assert(a1.push((t, n)) =~= a);
    }
}

/// An exact cosine-similarity score: the dot numerator and the two squared
/// magnitudes.  The score itself is `dp / sqrt(m1 * m2)` (zero when either
/// magnitude is zero); comparisons square it, exactly.
pub struct SimScore {
    pub dp: u64,
    pub m1: u64,
    pub m2: u64,
}

/// The numerator of the dot product of two stored vectors.
pub fn dot_exec(v1: &TfIdfVector, v2: &TfIdfVector) -> (d: u64)
    requires
        v1.wf(),
        v2.wf(),
    ensures
        d == dot(v1.model(), v2.model()),
        d <= SUM_CAP as int * SUM_CAP as int,
{
    let ghost ma = v1.model();
    let ghost mb = v2.model();
    let mut acc: u64 = 0;
    let mut k: usize = 0;
    proof {
        assert(ma.take(0) =~= Seq::empty());
        lemma_dot_le(ma.take(0), mb);
    }
    while k < v1.terms.len()
        invariant
            k <= v1.terms.len(),
            ma == v1.model(),
            mb == v2.model(),
            v1.wf(),
            v2.wf(),
            ma.len() == v1.terms@.len(),
            forall|j: int|
                0 <= j < ma.len() ==> ma[j] == (v1.terms@[j].term@, v1.terms@[j].num),
            acc == dot(ma.take(k as int), mb),
            acc <= SUM_CAP as int * SUM_CAP as int,
        decreases v1.terms.len() - k,
    {
        let tw = &v1.terms[k];
        let l = match v2.num_of(&tw.term) {
            Some(n) => n,
            None => 0,
        };
        proof {
            if !has_term(mb, tw.term@) {
                lemma_lookup_absent(mb, tw.term@);
            }
            let pre = ma.take(k as int);
            let pre1 = ma.take(k + 1);
            assert(pre1.drop_last() =~= pre);
            assert(pre1.last() == ma[k as int]);
            assert(dot(pre1, mb) == dot(pre, mb) + ma[k as int].1 * lookup(mb, ma[k as int].0));
            lemma_dot_le(pre1, mb);
            lemma_dot_le(pre, mb);
            lemma_sum_take_le(ma, k + 1);
            lemma_lookup_le_sum(mb, ma[k as int].0);
            lemma_elem_le_sum(ma, k as int);
            assert(sum_nums(pre1) * sum_nums(mb) <= SUM_CAP as int * SUM_CAP as int)
                by (nonlinear_arith)
                requires
                    0 <= sum_nums(pre1) <= SUM_CAP as int,
                    0 <= sum_nums(mb) <= SUM_CAP as int,
            ;
            assert(ma[k as int].1 * (l as int) <= SUM_CAP as int * SUM_CAP as int)
                by (nonlinear_arith)
                requires
                    0 <= ma[k as int].1 <= SUM_CAP as int,
                    0 <= l as int <= SUM_CAP as int,
            ;
            assert(acc + ma[k as int].1 * (l as int) == dot(pre1, mb));
            assert((SUM_CAP as int) * (SUM_CAP as int) < (u64::MAX as int)) by (nonlinear_arith);
        }
        acc = acc + tw.num * l;
        k = k + 1;
    }
    proof {
        assert(ma.take(ma.len() as int) =~= ma);
    }
    acc
}

/// The squared magnitude of a stored vector.
pub fn mag_exec(v: &TfIdfVector) -> (m: u64)
    requires
        v.wf(),
    ensures
        m == mag(v.model()),
        m <= SUM_CAP as int * SUM_CAP as int,
{
    let ghost mm = v.model();
    let mut acc: u64 = 0;
    let mut k: usize = 0;
    proof {
        assert(mm.take(0) =~= Seq::empty());
    }
    while k < v.terms.len()
        invariant
            k <= v.terms.len(),
            mm == v.model(),
            v.wf(),
            mm.len() == v.terms@.len(),
            forall|j: int| 0 <= j < mm.len() ==> mm[j] == (v.terms@[j].term@, v.terms@[j].num),
            acc == mag(mm.take(k as int)),
            acc <= SUM_CAP as int * SUM_CAP as int,
        decreases v.terms.len() - k,
    {
        let tw = &v.terms[k];
        proof {
            let pre = mm.take(k as int);
            let pre1 = mm.take(k + 1);
            assert(pre1.drop_last() =~= pre);
            assert(pre1.last() == mm[k as int]);
            lemma_mag_le(pre1);
            lemma_mag_le(pre);
            lemma_sum_take_le(mm, k + 1);
            lemma_elem_le_sum(mm, k as int);
            assert(sum_nums(pre1) * sum_nums(pre1) <= SUM_CAP as int * SUM_CAP as int)
                by (nonlinear_arith)
                requires
                    0 <= sum_nums(pre1) <= SUM_CAP as int,
            ;
            assert(mm[k as int].1 * mm[k as int].1 <= SUM_CAP as int * SUM_CAP as int)
                by (nonlinear_arith)
                requires
                    0 <= mm[k as int].1 <= SUM_CAP as int,
            ;
            assert(acc + mm[k as int].1 * mm[k as int].1 == mag(pre1));
            assert((SUM_CAP as int) * (SUM_CAP as int) < (u64::MAX as int)) by (nonlinear_arith);
        }
        acc = acc + tw.num * tw.num;
        k = k + 1;
    }
    proof {
        assert(mm.take(mm.len() as int) =~= mm);
    }
    acc
}

/// The numerator sum of a prefix never exceeds the whole sum.
pub proof fn lemma_sum_take_le(m: VecModel, i: int)
    requires
        0 <= i <= m.len(),
    ensures
        0 <= sum_nums(m.take(i)),
        sum_nums(m.take(i)) <= sum_nums(m),
    decreases m.len() - i,
{
    lemma_lookup_le_sum(m.take(i), Seq::empty());
    if i == m.len() {
        assert(m.take(i) =~= m);
    } else {
        assert(m.take(i + 1).drop_last() =~= m.take(i));
        lemma_lookup_le_sum(m.take(i + 1), Seq::empty());
        lemma_sum_take_le(m, i + 1);
    }
}

/// The exact similarity score of two stored vectors.
pub fn similarity(v1: &TfIdfVector, v2: &TfIdfVector) -> (s: SimScore)
    requires
        v1.wf(),
        v2.wf(),
    ensures
        s.dp == dot(v1.model(), v2.model()),
        s.m1 == mag(v1.model()),
        s.m2 == mag(v2.model()),
{
    SimScore { dp: dot_exec(v1, v2), m1: mag_exec(v1), m2: mag_exec(v2) }
}

/// Cosine similarity is symmetric: swapping the vectors swaps only the two
/// magnitude fields and keeps the dot numerator, so the score
/// `dp / sqrt(m1 * m2)` is unchanged.
pub proof fn lemma_similarity_symmetric(a: VecModel, b: VecModel)
    requires
        vec_wf(a),
        vec_wf(b),
    ensures
        dot(a, b) == dot(b, a),
{
    lemma_dot_symmetric(a, b);
}

/// Whether the score of (`da`, `ma1 * ma2`) strictly exceeds the score of
/// (`db`, `mb1 * mb2`): both dots are nonnegative, so the order of the
/// scores is the order of their squares, compared as exact fractions.
pub open spec fn sim_lt(db: int, mb: int, da: int, ma: int) -> bool {
    if ma == 0 {
        false
    } else if mb == 0 {
        da > 0
    } else {
        db * db * ma < da * da * mb
    }
}

/// Decides [`sim_lt`] exactly: is the score of (`db`, `mb`) strictly below
/// the score of (`da`, `ma`)?  Zero magnitudes mean a zero score.
pub fn sim_lt_exec(db: u64, mb: u64, da: u64, ma: u64) -> (r: bool)
    requires
        mb == 0 ==> db == 0,
        ma == 0 ==> da == 0,
    ensures
        r == sim_lt(db as int, mb as int, da as int, ma as int),
{
    if ma == 0 {
        false
    } else if mb == 0 {
        da > 0
    } else {
        proof {
            assert((db as int) * (db as int) <= (u64::MAX as int) * (u64::MAX as int))
                by (nonlinear_arith)
                requires
                    0 <= db as int <= u64::MAX as int,
            ;
            assert((da as int) * (da as int) <= (u64::MAX as int) * (u64::MAX as int))
                by (nonlinear_arith)
                requires
                    0 <= da as int <= u64::MAX as int,
            ;
        }
        let rel = compare_fracs(
            (db as u128) * (db as u128),
            mb as u128,
            (da as u128) * (da as u128),
            ma as u128,
        );
        rel == FracRel::Below
    }
}

/// A vector's dot product with itself is its squared magnitude.
pub proof fn lemma_dot_self(m: VecModel)
    requires
        forall|i: int, j: int| 0 <= i < j < m.len() ==> m[i].0 != m[j].0,
    ensures
        dot(m, m) == mag(m),
    decreases m.len(),
{
    if m.len() > 0 {
        let w = m.drop_last();
        let t = m.last().0;
        let n = m.last().1;
        assert(forall|i: int, j: int| 0 <= i < j < w.len() ==> w[i] == m[i] && w[j] == m[j]);
        assert(!has_term(w, t)) by {
            if has_term(w, t) {
                let k = choose|k: int| 0 <= k < w.len() && w[k].0 == t;
                assert(m[k].0 == t);
                assert(m[m.len() - 1].0 == t);
            }
        }
        lemma_dot_self(w);
        lemma_dot_push(w, w, t, n);
        assert(w.push((t, n)) =~= m);
        lemma_lookup_at(m, m.len() - 1);
        lemma_lookup_absent(w, t);
        assert(dot(m, m) == dot(w, m) + n * lookup(m, t));
        assert(dot(w, m) == dot(w, w) + (n as int) * lookup(w, t));
        assert((n as int) * 0 == 0) by (nonlinear_arith);
    }
}

/// The sum, over the terms of `a`, of the squared weight each finds in `b`.
pub open spec fn cap_sq(a: VecModel, b: VecModel) -> int
    decreases a.len(),
{
    if a.len() == 0 {
        0
    } else {
        cap_sq(a.drop_last(), b) + lookup(b, a.last().0) * lookup(b, a.last().0)
    }
}

/// `cap_sq` sees only the lookups of `a`'s terms.
proof fn lemma_cap_sq_same(a: VecModel, b1: VecModel, b2: VecModel)
    requires
        forall|i: int| 0 <= i < a.len() ==> lookup(b1, (#[trigger] a[i]).0) == lookup(b2, a[i].0),
    ensures
        cap_sq(a, b1) == cap_sq(a, b2),
    decreases a.len(),
{
    if a.len() > 0 {
        assert(forall|i: int| 0 <= i < a.len() - 1 ==> #[trigger] a.drop_last()[i] == a[i]);
        lemma_cap_sq_same(a.drop_last(), b1, b2);
        assert(a[a.len() - 1] == a.last());
    }
}

/// Removing one row subtracts exactly its square from the magnitude.
proof fn lemma_mag_remove(b: VecModel, j: int)
    requires
        0 <= j < b.len(),
    ensures
        mag(b.remove(j)) == mag(b) - b[j].1 * b[j].1,
    decreases b.len(),
{
    if j == b.len() - 1 {
        assert(b.remove(j) =~= b.drop_last());
    } else {
        assert(b.remove(j).drop_last() =~= b.drop_last().remove(j));
        assert(b.remove(j).last() == b.last());
        assert(b.drop_last()[j] == b[j]);
        lemma_mag_remove(b.drop_last(), j);
    }
}

/// Removing one row leaves the lookups of all other terms unchanged.
proof fn lemma_lookup_remove(b: VecModel, j: int, t: Seq<char>)
    requires
        0 <= j < b.len(),
        forall|i: int, k: int| 0 <= i < k < b.len() ==> b[i].0 != b[k].0,
        b[j].0 != t,
    ensures
        lookup(b.remove(j), t) == lookup(b, t),
    decreases b.len(),
{
    if j == b.len() - 1 {
        assert(b.remove(j) =~= b.drop_last());
    } else {
        assert(b.remove(j).drop_last() =~= b.drop_last().remove(j));
        assert(b.remove(j).last() == b.last());
        assert(b.drop_last()[j] == b[j]);
        assert(forall|i: int, k: int|
            0 <= i < k < b.len() - 1 ==> (#[trigger] b.drop_last()[i]).0 != (
            #[trigger] b.drop_last()[k]).0) by {
            assert(forall|i: int| 0 <= i < b.len() - 1 ==> #[trigger] b.drop_last()[i] == b[i]);
        }
        if b.last().0 == t {
        } else {
            lemma_lookup_remove(b.drop_last(), j, t);
        }
    }
}

/// The capped square sum never exceeds the other vector's magnitude: each
/// of `a`'s distinct terms hits a distinct row of `b`, or nothing.
proof fn lemma_cap_sq_le_mag(a: VecModel, b: VecModel)
    requires
        forall|i: int, j: int| 0 <= i < j < a.len() ==> a[i].0 != a[j].0,
        forall|i: int, j: int| 0 <= i < j < b.len() ==> b[i].0 != b[j].0,
    ensures
        0 <= cap_sq(a, b),
        cap_sq(a, b) <= mag(b),
    decreases a.len(),
{
    lemma_mag_le(b);
    if a.len() == 0 {
    } else {
        let w = a.drop_last();
        let t = a.last().0;
        assert(forall|i: int, j: int| 0 <= i < j < w.len() ==> w[i] == a[i] && w[j] == a[j]);
        let lb = lookup(b, t);
        if has_term(b, t) {
            let j = choose|j: int| 0 <= j < b.len() && b[j].0 == t;
            lemma_lookup_at(b, j);
            assert(lb == b[j].1);
            let br = b.remove(j);
            assert(forall|i: int, k: int| 0 <= i < k < br.len() ==> br[i].0 != br[k].0) by {
                assert(forall|i: int|
                    0 <= i < br.len() ==> #[trigger] br[i] == if i < j {
                        b[i]
                    } else {
                        b[i + 1]
                    });
            }
            lemma_cap_sq_le_mag(w, br);
            lemma_mag_remove(b, j);
            assert forall|i: int| 0 <= i < w.len() implies lookup(br, (#[trigger] w[i]).0)
                == lookup(b, w[i].0) by {
                assert(w[i].0 != t) by {
                    assert(a[i].0 != a[a.len() - 1].0);
                }
                lemma_lookup_remove(b, j, w[i].0);
            }
            lemma_cap_sq_same(w, b, br);
            assert(cap_sq(a, b) == cap_sq(w, br) + lb * lb);
        } else {
            lemma_lookup_absent(b, t);
            lemma_cap_sq_le_mag(w, b);
            assert(lb * lb == 0) by (nonlinear_arith)
                requires
                    lb == 0,
            ;
        }
    }
}

/// The pairwise Cauchy-Schwarz step: the dot product squared is at most
/// the product of `a`'s magnitude and the capped square sum.
proof fn lemma_cs_pairs(a: VecModel, b: VecModel)
    ensures
        dot(a, b) * dot(a, b) <= mag(a) * cap_sq(a, b),
    decreases a.len(),
{
    if a.len() == 0 {
    } else {
        let w = a.drop_last();
        let t = a.last().0;
        let n = a.last().1 as int;
        lemma_cs_pairs(w, b);
        let s = dot(w, b);
        let aa = mag(w);
        let c = cap_sq(w, b);
        let lb = lookup(b, t);
        lemma_dot_le(w, b);
        lemma_mag_le(w);
        lemma_lookup_le_sum(b, t);
        assert(0 <= cap_sq(w, b)) by {
            lemma_cap_sq_nonneg(w, b);
        }
        // 2*s*n*lb <= aa*lb*lb + c*n*n, by the arithmetic-geometric trick:
        // (aa*lb*lb - c*n*n)^2 >= 0 and s*s <= aa*c.
        let x = aa * (lb * lb);
        let y = c * (n * n);
        assert(x * y >= (s * s) * ((n * lb) * (n * lb))) by (nonlinear_arith)
            requires
                x == aa * (lb * lb),
                y == c * (n * n),
                s * s <= aa * c,
                0 <= aa,
                0 <= c,
                0 <= lb,
                0 <= n,
        ;
        assert((x + y) * (x + y) >= 4 * (x * y)) by (nonlinear_arith);
        assert((x + y) * (x + y) >= (2 * (s * (n * lb))) * (2 * (s * (n * lb))))
            by (nonlinear_arith)
            requires
                (x + y) * (x + y) >= 4 * (x * y),
                x * y >= (s * s) * ((n * lb) * (n * lb)),
        ;
        assert(x + y >= 2 * (s * (n * lb))) by (nonlinear_arith)
            requires
                (x + y) * (x + y) >= (2 * (s * (n * lb))) * (2 * (s * (n * lb))),
                0 <= x,
                0 <= y,
                0 <= s,
                0 <= n,
                0 <= lb,
        ;
        assert((s + n * lb) * (s + n * lb) == s * s + 2 * (s * (n * lb)) + (n * lb) * (n * lb))
            by (nonlinear_arith);
        assert((aa + n * n) * (c + lb * lb) == aa * c + (aa * (lb * lb) + c * (n * n)) + (n * n)
            * (lb * lb)) by (nonlinear_arith);
        assert((n * lb) * (n * lb) == (n * n) * (lb * lb)) by (nonlinear_arith);
        assert((s + n * lb) * (s + n * lb) <= (aa + n * n) * (c + lb * lb));
        assert(dot(a, b) == s + n * lb);
        assert(mag(a) == aa + n * n);
        assert(cap_sq(a, b) == c + lb * lb);
    }
}

/// The capped square sum is a sum of squares.
proof fn lemma_cap_sq_nonneg(a: VecModel, b: VecModel)
    ensures
        0 <= cap_sq(a, b),
    decreases a.len(),
{
    if a.len() > 0 {
        lemma_cap_sq_nonneg(a.drop_last(), b);
        let lb = lookup(b, a.last().0);
        assert(0 <= lb * lb) by (nonlinear_arith);
    }
}

/// Cauchy-Schwarz over sparse vectors with distinct terms: no score
/// exceeds one, squared exactly: `dot^2 <= mag * mag`.
pub proof fn lemma_cauchy_schwarz(a: VecModel, b: VecModel)
    requires
        forall|i: int, j: int| 0 <= i < j < a.len() ==> a[i].0 != a[j].0,
        forall|i: int, j: int| 0 <= i < j < b.len() ==> b[i].0 != b[j].0,
    ensures
        dot(a, b) * dot(a, b) <= mag(a) * mag(b),
{
    lemma_cs_pairs(a, b);
    lemma_cap_sq_le_mag(a, b);
    lemma_mag_le(a);
    assert(mag(a) * cap_sq(a, b) <= mag(a) * mag(b)) by (nonlinear_arith)
        requires
            0 <= mag(a),
            cap_sq(a, b) <= mag(b),
    ;
}

} // verus!
