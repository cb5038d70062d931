//! The corpus indexer: turns the immutable question/answer catalog into the
//! inverse-document-frequency table and one TF-IDF vector per question.
//!
//! Capacities: exact `u64` arithmetic asks that a catalog hold at most
//! [`MAX_QUESTIONS`] questions and that each question (or query) tokenize to
//! at most [`MAX_TOKENS`] tokens.  A catalog beyond these bounds is rejected
//! by [`build_index`] with the precise [`IndexError`]; both bounds are far
//! beyond any real support catalog.

use vstd::prelude::*;

verus! {

use crate::lnfix::IDF_BOUND;
use crate::lnfix::MAX_LN_ARG;
use crate::lnfix::ln_fixed;
use crate::lnfix::ln_fixed_spec;
use crate::text::count_term;
use crate::text::dedup;
use crate::text::dedup_tokens;
use crate::text::lemma_count_term_bounds;
use crate::text::lemma_dedup_facts;
use crate::text::lower_of;
use crate::text::seq_views;
use crate::text::tokenize;
use crate::text::tokens;
use crate::vector::SUM_CAP;
use crate::vector::TermWeight;
use crate::vector::TfIdfVector;
use crate::vector::VecModel;
use crate::vector::has_term;
use crate::vector::lemma_elem_le_sum;
use crate::vector::lemma_lookup_absent;
use crate::vector::lemma_lookup_at;
use crate::vector::lemma_lookup_le_sum;
use crate::vector::lookup;
use crate::vector::sum_nums;

/// Most tokens a question or query may hold.
pub const MAX_TOKENS: usize = 4096;

/// Most questions a catalog may hold.
pub const MAX_QUESTIONS: usize = 4096;

/// One catalog entry: a question and its stored answer.
pub struct QaEntry {
    pub question: String,
    pub answer: String,
}

/// The immutable catalog: question/answer pairs with distinct questions, in
/// insertion order.
pub struct Catalog {
    pub entries: Vec<QaEntry>,
}

/// The catalog's content: (question, answer) character sequences in order.
pub type CatModel = Seq<(Seq<char>, Seq<char>)>;

/// The tokens of a question or query: lowercase, split on whitespace.
pub open spec fn toks_of(q: Seq<char>) -> Seq<Seq<char>> {
    tokens(lower_of(q))
}

/// How many catalog questions contain the term `t` at least once.
pub open spec fn df_count(cat: CatModel, t: Seq<char>) -> int
    decreases cat.len(),
{
    if cat.len() == 0 {
        0
    } else {
        df_count(cat.drop_last(), t) + if toks_of(cat.last().0).contains(t) {
            1int
        } else {
            0int
        }
    }
}

/// Whether the term occurs in some catalog question.
pub open spec fn in_vocab(cat: CatModel, t: Seq<char>) -> bool {
    exists|i: int| 0 <= i < cat.len() && toks_of(cat[i].0).contains(t)
}

/// The fixed-point IDF of a vocabulary term: `ln(N / df)` scaled.
pub open spec fn idf_value(cat: CatModel, t: Seq<char>) -> int {
    ln_fixed_spec(cat.len() as int, df_count(cat, t))
}

/// Document frequency counts at least one question for a vocabulary term and
/// never more than all of them.
pub proof fn lemma_df_bounds(cat: CatModel, t: Seq<char>)
    ensures
        0 <= df_count(cat, t) <= cat.len(),
        in_vocab(cat, t) <==> df_count(cat, t) >= 1,
    decreases cat.len(),
{
    if cat.len() > 0 {
        lemma_df_bounds(cat.drop_last(), t);
        assert(forall|i: int|
            0 <= i < cat.len() - 1 ==> #[trigger] cat.drop_last()[i] == cat[i]);
        if in_vocab(cat, t) && !toks_of(cat.last().0).contains(t) {
            let i = choose|i: int| 0 <= i < cat.len() && toks_of(cat[i].0).contains(t);
            assert(toks_of(cat.drop_last()[i].0).contains(t));
        }
        if in_vocab(cat.drop_last(), t) {
            let i = choose|i: int|
                0 <= i < cat.len() - 1 && toks_of(cat.drop_last()[i].0).contains(t);
            assert(toks_of(cat[i].0).contains(t));
        }
        if toks_of(cat.last().0).contains(t) {
            assert(toks_of(cat[cat.len() - 1].0).contains(t));
        }
    }
}

impl Catalog {
    /// The stored pairs as character sequences.
    pub open spec fn model(self) -> CatModel {
        self.entries@.map_values(|e: QaEntry| (e.question@, e.answer@))
    }

    /// Questions are distinct: the catalog is a mapping.
    pub open spec fn wf(self) -> bool {
        forall|i: int, j: int|
            0 <= i < j < self.model().len() ==> self.model()[i].0 != self.model()[j].0
    }

    /// An empty catalog.
    pub fn new() -> (c: Catalog)
        ensures
            c.model() == Seq::<(Seq<char>, Seq<char>)>::empty(),
            c.wf(),
    {
        let c = Catalog { entries: Vec::new() };
        proof {
            assert(c.model() =~= Seq::<(Seq<char>, Seq<char>)>::empty());
        }
        c
    }

    /// Number of stored pairs.
    pub fn len(&self) -> (n: usize)
        ensures
            n == self.model().len(),
    {
        self.entries.len()
    }

    /// The question at position `i`.
    pub fn question_at(&self, i: usize) -> (q: &String)
        requires
            i < self.model().len(),
        ensures
            q@ == self.model()[i as int].0,
    {
        &self.entries[i].question
    }

    /// The answer at position `i`.
    pub fn answer_at(&self, i: usize) -> (a: &String)
        requires
            i < self.model().len(),
        ensures
            a@ == self.model()[i as int].1,
    {
        &self.entries[i].answer
    }

    /// Adds a pair.  A repeated question keeps its place and takes the new
    /// answer, as inserting into a mapping would; a fresh question goes to
    /// the end.
    pub fn insert(&mut self, question: String, answer: String)
        requires
            old(self).wf(),
        ensures
            final(self).wf(),
            ({
                let m0 = old(self).model();
                let m1 = final(self).model();
                if exists|k: int| 0 <= k < m0.len() && m0[k].0 == question@ {
                    &&& m1.len() == m0.len()
                    &&& forall|j: int|
                        0 <= j < m0.len() && m0[j].0 != question@ ==> m1[j] == m0[j]
                    &&& forall|j: int|
                        0 <= j < m0.len() && m0[j].0 == question@ ==> m1[j] == (
                        question@,
                        answer@,
                    )
                } else {
                    m1 == m0.push((question@, answer@))
                }
            }),
    {
        let ghost m0 = self.model();
        let n = self.entries.len();
        let mut k: usize = 0;
        while k < n
            invariant
                k <= n,
                n == self.entries.len(),
                m0 == self.model(),
                m0 == old(self).model(),
                self.wf(),
                forall|j: int| 0 <= j < k ==> m0[j].0 != question@,
                m0.len() == n,
                forall|i: int, j: int| 0 <= i < j < m0.len() ==> m0[i].0 != m0[j].0,
                forall|j: int|
                    0 <= j < n ==> m0[j] == (self.entries@[j].question@, self.entries@[j].answer@),
            decreases n - k,
        {
            if self.entries[k].question == question {
                self.entries[k] = QaEntry { question, answer };
                proof {
                    let m1 = self.model();
                    assert(m1.len() == m0.len());
                    assert(m1[k as int] == (question@, answer@));
                    assert(forall|j: int| 0 <= j < m0.len() && j != k ==> m1[j] == m0[j]);
                    assert(m0[k as int].0 == question@);
                    assert(forall|j: int| 0 <= j < m1.len() ==> m1[j].0 == m0[j].0);
                    assert(forall|i: int, j: int| 0 <= i < j < m1.len() ==> m1[i].0 != m1[j].0);
                    assert(exists|q: int| 0 <= q < m0.len() && m0[q].0 == question@);
                }
                return ;
            }
            k = k + 1;
        }
        self.entries.push(QaEntry { question, answer });
        proof {
            assert(self.model() =~= m0.push(
                (self.entries@[m0.len() as int].question@, self.entries@[m0.len() as int].answer@),
            ));
            if exists|k: int| 0 <= k < m0.len() && m0[k].0 == self.entries@[m0.len() as int].question@ {
                let j = choose|k: int|
                    0 <= k < m0.len() && m0[k].0 == self.entries@[m0.len() as int].question@;
                assert(false);
            }
        }
    }
}

/// One IDF table row.
pub struct IdfEntry {
    pub term: String,
    pub value: u64,
}

/// The inverse-document-frequency table: one row per vocabulary term.  A
/// term of every question has value zero; terms outside the vocabulary are
/// absent and weigh zero implicitly.
pub struct IdfTable {
    pub entries: Vec<IdfEntry>,
}

impl IdfTable {
    /// The rows as (term, value) pairs.
    pub open spec fn model(self) -> VecModel {
        self.entries@.map_values(|e: IdfEntry| (e.term@, e.value))
    }

    /// Rows hold distinct terms and values below [`IDF_BOUND`].
    pub open spec fn wf(self) -> bool {
        &&& forall|i: int, j: int|
            0 <= i < j < self.model().len() ==> self.model()[i].0 != self.model()[j].0
        &&& forall|k: int| 0 <= k < self.model().len() ==> (#[trigger] self.model()[k].1) < IDF_BOUND
    }

    /// Number of rows: the vocabulary size.
    pub fn len(&self) -> (n: usize)
        ensures
            n == self.model().len(),
    {
        self.entries.len()
    }

    /// The value stored for a term, if the term is in the vocabulary.
    pub fn value_of(&self, t: &String) -> (r: Option<u64>)
        requires
            self.wf(),
        ensures
            match r {
                Some(v) => has_term(self.model(), t@) && v == lookup(self.model(), t@),
                None => !has_term(self.model(), t@),
            },
    {
        let ghost mm = self.model();
        let mut k: usize = 0;
        while k < self.entries.len()
            invariant
                k <= self.entries.len(),
                mm == self.model(),
                self.wf(),
                mm.len() == self.entries.len(),
                forall|j: int|
                    0 <= j < mm.len() ==> mm[j] == (
                        self.entries@[j].term@,
                        self.entries@[j].value,
                    ),
                forall|j: int| 0 <= j < k ==> mm[j].0 != t@,
            decreases self.entries.len() - k,
        {
            if self.entries[k].term == *t {
                proof {
                    lemma_lookup_at(mm, k as int);
                }
                return Some(self.entries[k].value);
            }
            k = k + 1;
        }
        proof {
            if has_term(mm, t@) {
                let j = choose|j: int| 0 <= j < mm.len() && mm[j].0 == t@;
                assert(false);
            }
        }
        None
    }
}

/// Whether the table holds exactly the catalog's vocabulary, each term with
/// its exact fixed-point IDF.
pub open spec fn idf_matches(tbl: VecModel, cat: CatModel) -> bool {
    &&& forall|i: int, j: int| 0 <= i < j < tbl.len() ==> tbl[i].0 != tbl[j].0
    &&& forall|k: int| 0 <= k < tbl.len() ==> (#[trigger] tbl[k].1) < IDF_BOUND
    &&& forall|t: Seq<char>| #[trigger] has_term(tbl, t) ==> in_vocab(cat, t)
    &&& forall|t: Seq<char>| #[trigger] in_vocab(cat, t) ==> has_term(tbl, t)
    &&& forall|k: int| 0 <= k < tbl.len() ==> (#[trigger] tbl[k].1) == idf_value(cat, tbl[k].0)
}

/// Under [`idf_matches`], a lookup answers the catalog's IDF, or zero
/// outside the vocabulary.
pub proof fn lemma_idf_lookup(tbl: VecModel, cat: CatModel, t: Seq<char>)
    requires
        idf_matches(tbl, cat),
    ensures
        lookup(tbl, t) == if in_vocab(cat, t) {
            idf_value(cat, t)
        } else {
            0
        },
        lookup(tbl, t) < IDF_BOUND,
{
    if in_vocab(cat, t) {
        assert(has_term(tbl, t));
        let k = choose|k: int| 0 <= k < tbl.len() && tbl[k].0 == t;
        lemma_lookup_at(tbl, k);
    } else {
        if has_term(tbl, t) {
            assert(in_vocab(cat, t));
        }
        lemma_lookup_absent(tbl, t);
    }
}

/// The index a term occupies in an association sequence.
pub open spec fn index_of_term(m: VecModel, t: Seq<char>) -> int {
    choose|k: int| 0 <= k < m.len() && m[k].0 == t
}

/// Adds weight `w` for term `t`: bumps the stored numerator, or appends a
/// fresh row.
pub open spec fn bump(m: VecModel, t: Seq<char>, w: int) -> VecModel {
    if has_term(m, t) {
        let k = index_of_term(m, t);
        m.update(k, (t, (m[k].1 + w) as u64))
    } else {
        m.push((t, w as u64))
    }
}

/// The TF-IDF vector of a token list under an IDF table: one pass over the
/// tokens, each adding its term's IDF to that term's numerator.  Terms with
/// weight zero (IDF zero or unknown) are left out, so the stored weight
/// numerator of each kept term is `count * idf`.
pub open spec fn vec_spec(toks: Seq<Seq<char>>, tbl: VecModel) -> VecModel
    decreases toks.len(),
{
    if toks.len() == 0 {
        Seq::empty()
    } else {
        let prev = vec_spec(toks.drop_last(), tbl);
        let t = toks.last();
        let w = lookup(tbl, t);
        if w <= 0 {
            prev
        } else {
            bump(prev, t, w)
        }
    }
}

/// Updating one row moves the numerator sum by the difference.
proof fn lemma_sum_update(m: VecModel, k: int, v: u64)
    requires
        0 <= k < m.len(),
    ensures
        sum_nums(m.update(k, (m[k].0, v))) == sum_nums(m) - m[k].1 + v,
    decreases m.len(),
{
    let u = m.update(k, (m[k].0, v));
    if k == m.len() - 1 {
        assert(u.drop_last() =~= m.drop_last());
    } else {
        assert(u.drop_last() =~= m.drop_last().update(k, (m[k].0, v)));
        assert(m.drop_last()[k] == m[k]);
        lemma_sum_update(m.drop_last(), k, v);
    }
}

/// What one pass of weight accumulation guarantees: distinct terms,
/// positive numerators `count * idf`, presence exactly for in-vocabulary
/// terms with positive IDF, and a sum bounded by the token count.
pub proof fn lemma_vec_spec_props(toks: Seq<Seq<char>>, tbl: VecModel)
    requires
        toks.len() <= 4096,
        forall|k: int| 0 <= k < tbl.len() ==> (#[trigger] tbl[k].1) < IDF_BOUND,
    ensures
        ({
            let v = vec_spec(toks, tbl);
            &&& forall|i: int, j: int| 0 <= i < j < v.len() ==> v[i].0 != v[j].0
            &&& forall|k: int| 0 <= k < v.len() ==> 1 <= (#[trigger] v[k].1)
            &&& 0 <= sum_nums(v) <= toks.len() * (IDF_BOUND - 1)
            &&& forall|k: int|
                0 <= k < v.len() ==> (#[trigger] v[k].1) == count_term(toks, v[k].0) * lookup(
                    tbl,
                    v[k].0,
                )
            &&& forall|t: Seq<char>|
                #[trigger] has_term(v, t) <==> (toks.contains(t) && lookup(tbl, t) > 0)
        }),
    decreases toks.len(),
{
    let v = vec_spec(toks, tbl);
    lemma_lookup_le_sum(tbl, Seq::empty());
    if toks.len() == 0 {
        assert(sum_nums(v) == 0);
        assert(toks.len() * (IDF_BOUND - 1) == 0) by (nonlinear_arith)
            requires
                toks.len() == 0,
        ;
        assert(forall|t: Seq<char>| !toks.contains(t));
    } else {
        let toks0 = toks.drop_last();
        let prev = vec_spec(toks0, tbl);
        let t = toks.last();
        let w = lookup(tbl, t);
        lemma_vec_spec_props(toks0, tbl);
        lemma_count_bridge(toks, t);
        proof_bound_lookup(tbl, t);
        if w <= 0 {
            assert(v == prev);
            assert forall|k: int| 0 <= k < v.len() implies (#[trigger] v[k].1) == count_term(
                toks,
                v[k].0,
            ) * lookup(tbl, v[k].0) by {
                lemma_count_bridge(toks, v[k].0);
                if v[k].0 == t {
                    assert(0 <= k < prev.len() && prev[k].0 == t);
                    assert(has_term(prev, t));
                    assert(lookup(tbl, t) > 0);
                    assert(false);
                }
                assert(count_term(toks, v[k].0) == count_term(toks0, v[k].0));
            }
            assert forall|tt: Seq<char>| #[trigger] has_term(v, tt) implies (toks.contains(tt)
                && lookup(tbl, tt) > 0) by {
                assert(toks0.contains(tt) ==> toks.contains(tt)) by {
                    if toks0.contains(tt) {
                        let k = choose|k: int| 0 <= k < toks0.len() && toks0[k] == tt;
                        assert(toks[k] == tt);
                    }
                }
            }
            assert forall|tt: Seq<char>| (toks.contains(tt) && lookup(tbl, tt) > 0) implies
                #[trigger] has_term(v, tt) by {
                if tt == t {
                    assert(false);
                } else {
                    let k = choose|k: int| 0 <= k < toks.len() && toks[k] == tt;
                    assert(k < toks.len() - 1);
                    assert(toks0[k] == tt);
                    assert(toks0.contains(tt));
                    assert(has_term(prev, tt));
                }
            }
            assert(sum_nums(v) <= toks.len() * (IDF_BOUND - 1)) by (nonlinear_arith)
                requires
                    sum_nums(v) <= (toks.len() - 1) * (IDF_BOUND - 1),
                    toks.len() >= 1,
            ;
        } else {
            lemma_bump_props(prev, toks0, tbl, t, w);
            assert(v == bump(prev, t, w));
            assert(toks0.push(t) =~= toks);
            assert forall|k: int| 0 <= k < v.len() implies (#[trigger] v[k].1) == count_term(
                toks,
                v[k].0,
            ) * lookup(tbl, v[k].0) by {
                lemma_count_bridge(toks, v[k].0);
            }
            assert forall|tt: Seq<char>| #[trigger] has_term(v, tt) implies (toks.contains(tt)
                && lookup(tbl, tt) > 0) by {
                if tt == t {
                    assert(toks[toks.len() - 1] == t);
                } else {
                    assert(has_term(prev, tt));
                    let k = choose|k: int| 0 <= k < toks0.len() && toks0[k] == tt;
                    assert(toks[k] == tt);
                }
            }
            assert forall|tt: Seq<char>| (toks.contains(tt) && lookup(tbl, tt) > 0) implies
                #[trigger] has_term(v, tt) by {
                if tt == t {
                    if has_term(prev, t) {
                        let k0 = index_of_term(prev, t);
                        assert(0 <= k0 < v.len() && v[k0].0 == t);
                    } else {
                        assert(v[prev.len() as int].0 == t);
                    }
                } else {
                    let k = choose|k: int| 0 <= k < toks.len() && toks[k] == tt;
                    assert(k < toks.len() - 1);
                    assert(toks0[k] == tt);
                    assert(toks0.contains(tt));
                    assert(has_term(prev, tt));
                    let q = choose|q: int| 0 <= q < prev.len() && prev[q].0 == tt;
                    if has_term(prev, t) {
                        let k0 = index_of_term(prev, t);
                        assert(prev[k0].0 == t);
                        assert(q != k0);
                        assert(0 <= q < v.len() && v[q].0 == tt);
                    } else {
                        assert(0 <= q < v.len() && v[q].0 == tt);
                    }
                }
            }
            assert(sum_nums(v) <= toks.len() * (IDF_BOUND - 1)) by (nonlinear_arith)
                requires
                    sum_nums(v) <= (toks.len() - 1) * (IDF_BOUND - 1) + w,
                    0 < w <= IDF_BOUND - 1,
                    toks.len() >= 1,
            ;
        }
    }
}

/// Dropping the last token only changes the last token's own count.
proof fn lemma_count_bridge(toks: Seq<Seq<char>>, t: Seq<char>)
    requires
        toks.len() > 0,
    ensures
        count_term(toks, t) == count_term(toks.drop_last(), t) + if toks.last() == t {
            1int
        } else {
            0int
        },
{
}

/// A lookup in a bounded table stays bounded.
proof fn proof_bound_lookup(tbl: VecModel, t: Seq<char>)
    requires
        forall|k: int| 0 <= k < tbl.len() ==> (#[trigger] tbl[k].1) < IDF_BOUND,
    ensures
        lookup(tbl, t) < IDF_BOUND,
    decreases tbl.len(),
{
    if tbl.len() > 0 {
        assert(forall|k: int|
            0 <= k < tbl.len() - 1 ==> #[trigger] tbl.drop_last()[k] == tbl[k]);
        proof_bound_lookup(tbl.drop_last(), t);
    }
}

/// What bumping a term does to the rows: the bumped term gains `w`, the
/// rest stand, distinctness and the count relation are kept.
proof fn lemma_bump_props(prev: VecModel, toks0: Seq<Seq<char>>, tbl: VecModel, t: Seq<char>, w: int)
    requires
        0 < w < IDF_BOUND,
        forall|i: int, j: int| 0 <= i < j < prev.len() ==> prev[i].0 != prev[j].0,
        forall|k: int| 0 <= k < prev.len() ==> 1 <= (#[trigger] prev[k].1),
        0 <= sum_nums(prev) <= toks0.len() * (IDF_BOUND - 1),
        forall|k: int|
            0 <= k < prev.len() ==> (#[trigger] prev[k].1) == count_term(toks0, prev[k].0) * lookup(
                tbl,
                prev[k].0,
            ),
        forall|tt: Seq<char>|
            #[trigger] has_term(prev, tt) <==> (toks0.contains(tt) && lookup(tbl, tt) > 0),
        w == lookup(tbl, t),
        toks0.len() < 4096,
    ensures
        ({
            let v = bump(prev, t, w);
            &&& forall|i: int, j: int| 0 <= i < j < v.len() ==> v[i].0 != v[j].0
            &&& forall|k: int| 0 <= k < v.len() ==> 1 <= (#[trigger] v[k].1)
            &&& sum_nums(v) <= sum_nums(prev) + w
            &&& 0 <= sum_nums(v)
            &&& forall|k: int|
                0 <= k < v.len() ==> (#[trigger] v[k].1) == count_term(
                    toks0.push(t),
                    v[k].0,
                ) * lookup(tbl, v[k].0)
        }),
{
    let v = bump(prev, t, w);
    let toks = toks0.push(t);
    assert(toks.drop_last() =~= toks0);
    assert(toks.last() == t);
    lemma_lookup_le_sum(prev, Seq::empty());
    assert forall|tt: Seq<char>| toks0.contains(tt) implies count_term(toks0, tt) >= 1 by {
        lemma_count_term_bounds(toks0, tt);
    }
    if has_term(prev, t) {
        let k = index_of_term(prev, t);
        assert(0 <= k < prev.len() && prev[k].0 == t);
        lemma_elem_le_sum(prev, k);
        let c0 = count_term(toks0, t);
        assert(prev[k].1 == c0 * w);
        assert(c0 >= 1);
        assert((c0 + 1) * w == c0 * w + w) by (nonlinear_arith);
        assert(prev[k].1 + w < u64::MAX) by (nonlinear_arith)
            requires
                prev[k].1 <= sum_nums(prev),
                sum_nums(prev) <= toks0.len() * (IDF_BOUND - 1),
                0 < w < IDF_BOUND,
                toks0.len() < 0x1_0000_0000_0000,
        ;
        assert(v == prev.update(k, (t, (prev[k].1 + w) as u64)));
        lemma_sum_update(prev, k, (prev[k].1 + w) as u64);
        assert forall|j: int| 0 <= j < v.len() implies (#[trigger] v[j].1) == count_term(
            toks,
            v[j].0,
        ) * lookup(tbl, v[j].0) by {
            lemma_count_bridge(toks, v[j].0);
            if j == k {
                assert(v[j] == (t, (prev[k].1 + w) as u64));
                assert(count_term(toks, t) == c0 + 1);
            } else {
                assert(v[j] == prev[j]);
                assert(v[j].0 != t);
            }
        }
    } else {
        assert(v == prev.push((t, w as u64)));
        assert(forall|j: int| 0 <= j < prev.len() ==> #[trigger] v[j] == prev[j]);
        assert(v[prev.len() as int] == (t, w as u64));
        assert(sum_nums(v) == sum_nums(prev) + w) by {
            assert(v.drop_last() =~= prev);
        }
        lemma_count_term_bounds(toks0, t);
        assert(count_term(toks0, t) == 0);
        assert forall|j: int| 0 <= j < v.len() implies (#[trigger] v[j].1) == count_term(
            toks,
            v[j].0,
        ) * lookup(tbl, v[j].0) by {
            lemma_count_bridge(toks, v[j].0);
            if j == prev.len() {
                assert(v[j] == (t, w as u64));
                assert(count_term(toks, t) == 1);
                assert(1 * w == w) by (nonlinear_arith);
            } else {
                assert(v[j] == prev[j]);
                assert(v[j].0 != t) by {
                    if v[j].0 == t {
                        assert(has_term(prev, t));
                    }
                }
            }
        }
        assert forall|i: int, j: int| 0 <= i < j < v.len() implies v[i].0 != v[j].0 by {
            if j == prev.len() {
                if v[i].0 == t {
                    assert(has_term(prev, t));
                }
            }
        }
    }
}

/// Builds the TF-IDF vector of a token list: one pass, each token adding
/// its term's IDF to that term's numerator.
pub fn vectorize(toks: &Vec<String>, idf: &IdfTable) -> (v: TfIdfVector)
    requires
        toks@.len() <= MAX_TOKENS,
        idf.wf(),
    ensures
        v.model() == vec_spec(seq_views(toks@), idf.model()),
        v.wf(),
        v.total == toks@.len(),
{
    let ghost tblm = idf.model();
    let ghost tv = seq_views(toks@);
    let mut terms: Vec<TermWeight> = Vec::new();
    let mut k: usize = 0;
    proof {
        assert(tv.take(0) =~= Seq::<Seq<char>>::empty());
        assert(terms@.map_values(|tw: TermWeight| (tw.term@, tw.num)) =~= vec_spec(
            tv.take(0),
            tblm,
        ));
        lemma_vec_spec_props(tv.take(0), tblm);
    }
    while k < toks.len()
        invariant
            k <= toks.len(),
            tblm == idf.model(),
            idf.wf(),
            tv == seq_views(toks@),
            tv.len() == toks@.len() <= MAX_TOKENS,
            terms@.map_values(|tw: TermWeight| (tw.term@, tw.num)) == vec_spec(
                tv.take(k as int),
                tblm,
            ),
        decreases toks.len() - k,
    {
        let ghost pre = vec_spec(tv.take(k as int), tblm);
        let ghost m = terms@.map_values(|tw: TermWeight| (tw.term@, tw.num));
        proof {
            lemma_vec_spec_props(tv.take(k as int), tblm);
            assert(tv.take(k + 1).drop_last() =~= tv.take(k as int));
            assert(tv.take(k + 1).last() == tv[k as int]);
            assert(tv[k as int] == toks@[k as int]@);
        }
        let tok = &toks[k];
        let w = match idf.value_of(tok) {
            Some(v) => v,
            None => 0,
        };
        proof {
            if !has_term(tblm, tok@) {
                lemma_lookup_absent(tblm, tok@);
            }
            assert(w == lookup(tblm, tok@));
        }
        if w > 0 {
            proof {
                proof_bound_lookup(tblm, tok@);
                lemma_bump_props(
                    pre,
                    tv.take(k as int),
                    tblm,
                    tok@,
                    w as int,
                );
                assert(tv.take(k as int).push(tok@) =~= tv.take(k + 1));
            }
            // Find the term's row, if it already has one.
            let n = terms.len();
            let mut j: usize = 0;
            let mut found = false;
            while j < n
                invariant_except_break
                    j <= n,
                    !found,
                    n == terms.len(),
                    m == terms@.map_values(|tw: TermWeight| (tw.term@, tw.num)),
                    m.len() == n,
                    forall|q: int|
                        0 <= q < n ==> m[q] == (terms@[q].term@, terms@[q].num),
                    forall|q: int| 0 <= q < j ==> m[q].0 != tok@,
                ensures
                    j <= n,
                    n == terms.len(),
                    m == terms@.map_values(|tw: TermWeight| (tw.term@, tw.num)),
                    m.len() == n,
                    forall|q: int|
                        0 <= q < n ==> m[q] == (terms@[q].term@, terms@[q].num),
                    found ==> j < n && m[j as int].0 == tok@,
                    !found ==> !has_term(m, tok@),
                decreases n - j,
            {
                if terms[j].term == *tok {
                    found = true;
                    break ;
                }
                j = j + 1;
                proof {
                    if j == n && has_term(m, tok@) {
                        let q = choose|q: int| 0 <= q < m.len() && m[q].0 == tok@;
                        assert(false);
                    }
                }
            }
            if found {
                proof {
                    assert(has_term(m, tok@));
                    let ko = index_of_term(m, tok@);
                    assert(0 <= ko < m.len() && m[ko].0 == tok@);
                    assert(ko == j as int) by {
                        assert(forall|i1: int, j1: int|
                            0 <= i1 < j1 < m.len() ==> m[i1].0 != m[j1].0);
                    }
                    lemma_elem_le_sum(m, j as int);
                    assert(m[j as int].1 + w < u64::MAX) by (nonlinear_arith)
                        requires
                            m[j as int].1 <= sum_nums(m),
                            sum_nums(m) <= tv.take(k as int).len() * (IDF_BOUND - 1),
                            0 <= tv.take(k as int).len() < 0x1_0000_0000,
                            0 < w < IDF_BOUND,
                    ;
                }
                let num0 = terms[j].num;
                let term0 = terms[j].term.clone();
                terms[j] = TermWeight { term: term0, num: num0 + w };
                proof {
                    assert(terms@.map_values(|tw: TermWeight| (tw.term@, tw.num)) =~= bump(
                        m,
                        tok@,
                        w as int,
                    ));
                }
            } else {
                terms.push(TermWeight { term: tok.clone(), num: w });
                proof {
                    assert(terms@.map_values(|tw: TermWeight| (tw.term@, tw.num)) =~= bump(
                        m,
                        tok@,
                        w as int,
                    ));
                }
            }
        } else {
            proof {
                assert(vec_spec(tv.take(k + 1), tblm) == pre);
            }
        }
        k = k + 1;
    }
    proof {
        assert(tv.take(toks@.len() as int) =~= tv);
        lemma_vec_spec_props(tv, tblm);
        assert((IDF_BOUND - 1) * tv.len() <= (IDF_BOUND as int) * 4096) by (nonlinear_arith)
            requires
                0 <= tv.len() <= 4096,
        ;
        assert(sum_nums(vec_spec(tv, tblm)) <= SUM_CAP) by (nonlinear_arith)
            requires
                sum_nums(vec_spec(tv, tblm)) <= tv.len() * (IDF_BOUND - 1),
                0 <= tv.len() <= 4096,
        ;
    }
    TfIdfVector { terms, total: toks.len() as u64 }
}

/// Why an oversized catalog is rejected at startup.
#[derive(Clone, Copy, Debug, PartialEq, Eq, Structural)]
pub enum IndexError {
    /// More than [`MAX_QUESTIONS`] questions.
    TooManyQuestions,
    /// Some question tokenizes to more than [`MAX_TOKENS`] tokens.
    QuestionTooLong,
}

/// One catalog question with its precomputed TF-IDF vector.
pub struct DocVector {
    pub question: String,
    pub vector: TfIdfVector,
}

/// The precomputed index: the IDF table and one vector per catalog
/// question, in catalog order.
pub struct Index {
    pub idf: IdfTable,
    pub vectors: Vec<DocVector>,
}

impl Index {
    /// What [`build_index`] guarantees of its result for the catalog `cat`:
    /// the table holds exactly the vocabulary with exact fixed-point IDF
    /// values, and each question has its exact TF-IDF vector, in order.
    pub open spec fn wf_for(self, cat: CatModel) -> bool {
        &&& idf_matches(self.idf.model(), cat)
        &&& self.idf.wf()
        &&& self.vectors@.len() == cat.len()
        &&& cat.len() <= MAX_QUESTIONS
        &&& forall|i: int|
            0 <= i < cat.len() ==> (#[trigger] self.vectors@[i]).question@ == cat[i].0
        &&& forall|i: int|
            0 <= i < cat.len() ==> (#[trigger] self.vectors@[i]).vector.model() == vec_spec(
                toks_of(cat[i].0),
                self.idf.model(),
            )
        &&& forall|i: int| 0 <= i < cat.len() ==> (#[trigger] self.vectors@[i]).vector.wf()
        &&& forall|i: int|
            0 <= i < cat.len() ==> (#[trigger] toks_of(cat[i].0)).len() <= MAX_TOKENS
    }

    /// How many questions are indexed.
    pub fn question_count(&self) -> (n: usize)
        ensures
            n == self.vectors@.len(),
    {
        self.vectors.len()
    }

    /// The stored vector of question `i`.
    pub fn vector_at(&self, i: usize) -> (v: &TfIdfVector)
        requires
            i < self.vectors@.len(),
        ensures
            v == self.vectors@[i as int].vector,
    {
        &self.vectors[i].vector
    }

    /// The question at position `i`.
    pub fn question_at(&self, i: usize) -> (q: &String)
        requires
            i < self.vectors@.len(),
        ensures
            q@ == self.vectors@[i as int].question@,
    {
        &self.vectors[i].question
    }

    /// The IDF table.
    pub fn idf_table(&self) -> (t: &IdfTable)
        ensures
            t == self.idf,
    {
        &self.idf
    }
}

/// One more question widens the vocabulary by exactly its own tokens.
proof fn lemma_vocab_step(cat: CatModel, i: int, t: Seq<char>)
    requires
        0 <= i < cat.len(),
    ensures
        in_vocab(cat.take(i + 1), t) <==> (in_vocab(cat.take(i), t) || toks_of(
            cat[i].0,
        ).contains(t)),
        df_count(cat.take(i + 1), t) == df_count(cat.take(i), t) + if toks_of(
            cat[i].0,
        ).contains(t) {
            1int
        } else {
            0int
        },
{
    let p = cat.take(i);
    let p1 = cat.take(i + 1);
    assert(p1.drop_last() =~= p);
    assert(p1.last() == cat[i]);
    if in_vocab(p1, t) {
        let j = choose|j: int| 0 <= j < p1.len() && toks_of(p1[j].0).contains(t);
        if j < i {
            assert(p[j] == p1[j]);
            assert(in_vocab(p, t));
        } else {
            assert(p1[j] == cat[i]);
        }
    }
    if in_vocab(p, t) {
        let j = choose|j: int| 0 <= j < p.len() && toks_of(p[j].0).contains(t);
        assert(p1[j] == p[j]);
        assert(in_vocab(p1, t));
    }
    if toks_of(cat[i].0).contains(t) {
        assert(p1[i] == cat[i]);
        assert(in_vocab(p1, t));
    }
}

/// Builds the index of a catalog: the IDF table over the vocabulary and the
/// TF-IDF vector of every question.  A catalog over the capacity bounds is
/// rejected, with the error saying which bound broke; this is the one
/// failure the indexer has, and it happens at startup, never per query.
pub fn build_index(catalog: &Catalog) -> (r: Result<Index, IndexError>)
    ensures
        match r {
            Ok(ix) => ix.wf_for(catalog.model()),
            Err(e) => match e {
                IndexError::TooManyQuestions => catalog.model().len() > MAX_QUESTIONS,
                IndexError::QuestionTooLong => catalog.model().len() <= MAX_QUESTIONS
                    && exists|i: int|
                    0 <= i < catalog.model().len() && (#[trigger] toks_of(
                        catalog.model()[i].0,
                    )).len() > MAX_TOKENS,
            },
        },
{
    let ghost cat = catalog.model();
    let n = catalog.entries.len();
    proof {
        assert(cat.len() == n);
        assert(forall|j: int|
            0 <= j < n ==> cat[j] == (
                catalog.entries@[j].question@,
                catalog.entries@[j].answer@,
            ));
    }
    if n > MAX_QUESTIONS {
        return Err(IndexError::TooManyQuestions);
    }
    // Tokenize every question once, rejecting over-long questions.
    let mut all_toks: Vec<Vec<String>> = Vec::new();
    let mut i: usize = 0;
    while i < n
        invariant
            i <= n,
            n == cat.len() <= MAX_QUESTIONS,
            n == catalog.entries.len(),
            cat == catalog.model(),
            forall|j: int|
                0 <= j < n ==> cat[j] == (
                    catalog.entries@[j].question@,
                    catalog.entries@[j].answer@,
                ),
            all_toks@.len() == i,
            forall|j: int|
                0 <= j < i ==> seq_views((#[trigger] all_toks@[j])@) == toks_of(cat[j].0),
            forall|j: int| 0 <= j < i ==> (#[trigger] all_toks@[j])@.len() <= MAX_TOKENS,
        decreases n - i,
    {
        let toks = tokenize(&catalog.entries[i].question);
        if toks.len() > MAX_TOKENS {
            proof {
                assert(seq_views(toks@).len() == toks@.len());
                assert(toks_of(cat[i as int].0).len() > MAX_TOKENS);
            }
            return Err(IndexError::QuestionTooLong);
        }
        proof {
            assert(seq_views(toks@).len() == toks@.len());
        }
        all_toks.push(toks);
        i = i + 1;
    }
    // Document frequencies: for each question, each distinct term counts
    // once.
    let mut df: Vec<IdfEntry> = Vec::new();
    let mut i: usize = 0;
    proof {
        assert(cat.take(0) =~= Seq::<(Seq<char>, Seq<char>)>::empty());
        assert(df@.map_values(|e: IdfEntry| (e.term@, e.value)) =~= Seq::<(
            Seq<char>,
            u64,
        )>::empty());
    }
    while i < n
        invariant
            i <= n,
            n == cat.len() <= MAX_QUESTIONS,
            all_toks@.len() == n,
            forall|j: int|
                0 <= j < n ==> seq_views((#[trigger] all_toks@[j])@) == toks_of(cat[j].0),
            forall|j: int| 0 <= j < n ==> (#[trigger] all_toks@[j])@.len() <= MAX_TOKENS,
            ({
                let dm = df@.map_values(|e: IdfEntry| (e.term@, e.value));
                &&& forall|a: int, b: int| 0 <= a < b < dm.len() ==> dm[a].0 != dm[b].0
                &&& forall|k: int|
                    0 <= k < dm.len() ==> (#[trigger] dm[k].1) == df_count(
                        cat.take(i as int),
                        dm[k].0,
                    )
                &&& forall|k: int| 0 <= k < dm.len() ==> 1 <= (#[trigger] dm[k].1) <= i
                &&& forall|t: Seq<char>|
                    #[trigger] has_term(dm, t) <==> in_vocab(cat.take(i as int), t)
            }),
        decreases n - i,
    {
        let d = dedup_tokens(&all_toks[i]);
        let ghost ti = toks_of(cat[i as int].0);
        let ghost dv = seq_views(d@);
        proof {
            lemma_dedup_facts(ti);
            assert(dv == dedup(ti));
        }
        let mut j: usize = 0;
        proof {
            assert(dv.take(0) =~= Seq::<Seq<char>>::empty());
        }
        while j < d.len()
            invariant
                j <= d.len(),
                0 <= i < n,
                n == cat.len() <= MAX_QUESTIONS,
                dv == seq_views(d@),
                dv == dedup(ti),
                ti == toks_of(cat[i as int].0),
                dv.len() == d@.len(),
                forall|q: int, w: int| 0 <= q < w < dv.len() ==> dv[q] != dv[w],
                forall|t: Seq<char>| #[trigger] dv.contains(t) ==> ti.contains(t),
                ({
                    let dm = df@.map_values(|e: IdfEntry| (e.term@, e.value));
                    &&& forall|a: int, b: int| 0 <= a < b < dm.len() ==> dm[a].0 != dm[b].0
                    &&& forall|k: int|
                        0 <= k < dm.len() ==> (#[trigger] dm[k].1) == df_count(
                            cat.take(i as int),
                            dm[k].0,
                        ) + if dv.take(j as int).contains(dm[k].0) {
                            1int
                        } else {
                            0int
                        }
                    &&& forall|k: int| 0 <= k < dm.len() ==> 1 <= (#[trigger] dm[k].1) <= i + 1
                    &&& forall|t: Seq<char>|
                        #[trigger] has_term(dm, t) <==> (in_vocab(cat.take(i as int), t)
                            || dv.take(j as int).contains(t))
                }),
            decreases d.len() - j,
        {
            let ghost dm = df@.map_values(|e: IdfEntry| (e.term@, e.value));
            let u = &d[j];
            proof {
                let pv = dv.take(j as int);
                let pv1 = dv.take(j + 1);
                assert(dv[j as int] == u@);
                assert(!pv.contains(u@)) by {
                    if pv.contains(u@) {
                        let q = choose|q: int| 0 <= q < pv.len() && pv[q] == u@;
                        assert(dv[q] == dv[j as int]);
                    }
                }
                assert(forall|t: Seq<char>|
                    #[trigger] pv1.contains(t) <==> (pv.contains(t) || t == u@)) by {
                    assert forall|t: Seq<char>| #[trigger] pv1.contains(t) implies (pv.contains(t)
                        || t == u@) by {
                        let q = choose|q: int| 0 <= q < pv1.len() && pv1[q] == t;
                        if q < j {
                            assert(pv[q] == t);
                        }
                    }
                    assert forall|t: Seq<char>| (pv.contains(t) || t == u@) implies
                        #[trigger] pv1.contains(t) by {
                        if t == u@ {
                            assert(pv1[j as int] == t);
                        } else {
                            let q = choose|q: int| 0 <= q < pv.len() && pv[q] == t;
                            assert(pv1[q] == t);
                        }
                    }
                }
            }
            // Find the term's row, or create it with count one.
            let nd = df.len();
            let mut p: usize = 0;
            let mut found = false;
            while p < nd
                invariant_except_break
                    p <= nd,
                    !found,
                    nd == df.len(),
                    dm == df@.map_values(|e: IdfEntry| (e.term@, e.value)),
                    dm.len() == nd,
                    forall|q: int| 0 <= q < nd ==> dm[q] == (df@[q].term@, df@[q].value),
                    forall|q: int| 0 <= q < p ==> dm[q].0 != u@,
                ensures
                    p <= nd,
                    nd == df.len(),
                    dm == df@.map_values(|e: IdfEntry| (e.term@, e.value)),
                    dm.len() == nd,
                    forall|q: int| 0 <= q < nd ==> dm[q] == (df@[q].term@, df@[q].value),
                    found ==> p < nd && dm[p as int].0 == u@,
                    !found ==> !has_term(dm, u@),
                decreases nd - p,
            {
                if df[p].term == *u {
                    found = true;
                    break ;
                }
                p = p + 1;
                proof {
                    if p == nd && has_term(dm, u@) {
                        let q = choose|q: int| 0 <= q < dm.len() && dm[q].0 == u@;
                        assert(false);
                    }
                }
            }
            if found {
                proof {
                    assert(dm[p as int].1 <= i + 1);
                }
                let v0 = df[p].value;
                let term0 = df[p].term.clone();
                df[p] = IdfEntry { term: term0, value: v0 + 1 };
                proof {
                    let pv = dv.take(j as int);
                    let pv1 = dv.take(j + 1);
                    let dm1 = df@.map_values(|e: IdfEntry| (e.term@, e.value));
                    assert(dm1 =~= dm.update(p as int, (u@, (v0 + 1) as u64)));
                    assert(!pv.contains(u@));
                    lemma_df_bounds(cat.take(i as int), u@);
                    assert(v0 == df_count(cat.take(i as int), u@));
                    assert(v0 <= i);
                    assert forall|k2: int| 0 <= k2 < dm1.len() implies (#[trigger] dm1[k2].1)
                        == df_count(cat.take(i as int), dm1[k2].0) + if pv1.contains(dm1[k2].0) {
                        1int
                    } else {
                        0int
                    } by {
                        if k2 == p {
                            assert(dm1[k2] == (u@, (v0 + 1) as u64));
                            assert(pv1.contains(u@));
                        } else {
                            assert(dm1[k2] == dm[k2]);
                            assert(dm[k2].0 != u@);
                        }
                    }
                    assert forall|k2: int| 0 <= k2 < dm1.len() implies 1 <= (#[trigger] dm1[k2].1)
                        <= i + 1 by {
                        if k2 != p {
                            assert(dm1[k2] == dm[k2]);
                        }
                    }
                    assert forall|t: Seq<char>| #[trigger] has_term(dm1, t) implies (in_vocab(
                        cat.take(i as int),
                        t,
                    ) || pv1.contains(t)) by {
                        let q = choose|q: int| 0 <= q < dm1.len() && dm1[q].0 == t;
                        assert(dm[q].0 == t);
                        assert(has_term(dm, t));
                    }
                    assert forall|t: Seq<char>| (in_vocab(cat.take(i as int), t) || pv1.contains(
                        t,
                    )) implies #[trigger] has_term(dm1, t) by {
                        if in_vocab(cat.take(i as int), t) || pv.contains(t) {
                            assert(has_term(dm, t));
                            let q = choose|q: int| 0 <= q < dm.len() && dm[q].0 == t;
                            assert(dm1[q].0 == t);
                        } else {
                            assert(t == u@);
                            assert(dm1[p as int].0 == u@);
                        }
                    }
                }
            } else {
                df.push(IdfEntry { term: u.as_str().to_owned(), value: 1 });
                proof {
                    let dm1 = df@.map_values(|e: IdfEntry| (e.term@, e.value));
                    assert(dm1 =~= dm.push((u@, 1u64)));
                    assert(forall|t: Seq<char>|
                        #[trigger] has_term(dm1, t) <==> (has_term(dm, t) || t == u@)) by {
                        assert forall|t: Seq<char>| #[trigger] has_term(dm1, t) implies (
                        has_term(dm, t) || t == u@) by {
                            let q = choose|q: int| 0 <= q < dm1.len() && dm1[q].0 == t;
                            if q < dm.len() {
                                assert(dm[q].0 == t);
                            }
                        }
                        assert forall|t: Seq<char>| (has_term(dm, t) || t == u@) implies
                            #[trigger] has_term(dm1, t) by {
                            if t == u@ {
                                assert(dm1[dm.len() as int].0 == t);
                            } else {
                                let q = choose|q: int| 0 <= q < dm.len() && dm[q].0 == t;
                                assert(dm1[q].0 == t);
                            }
                        }
                    }
                    lemma_df_bounds(cat.take(i as int), u@);
                    assert(!in_vocab(cat.take(i as int), u@));
                    assert(df_count(cat.take(i as int), u@) == 0);
                    let pv = dv.take(j as int);
                    let pv1 = dv.take(j + 1);
                    assert forall|k2: int| 0 <= k2 < dm1.len() implies (#[trigger] dm1[k2].1)
                        == df_count(cat.take(i as int), dm1[k2].0) + if pv1.contains(dm1[k2].0) {
                        1int
                    } else {
                        0int
                    } by {
                        if k2 == dm.len() {
                            assert(dm1[k2] == (u@, 1u64));
                            assert(pv1.contains(u@));
                            assert(!pv.contains(u@));
                        } else {
                            assert(dm1[k2] == dm[k2]);
                            assert(dm[k2].0 != u@) by {
                                if dm[k2].0 == u@ {
                                    assert(has_term(dm, u@));
                                }
                            }
                        }
                    }
                    assert forall|k2: int| 0 <= k2 < dm1.len() implies 1 <= (#[trigger] dm1[k2].1) <= i + 1 by {
                        if k2 != dm.len() {
                            assert(dm1[k2] == dm[k2]);
                        }
                    }
                    assert forall|a: int, b: int| 0 <= a < b < dm1.len() implies dm1[a].0 != dm1[b].0 by {
                        if b == dm.len() {
                            if dm1[a].0 == u@ {
                                assert(dm[a].0 == u@);
                                assert(has_term(dm, u@));
                            }
                        }
                    }
                    assert forall|t: Seq<char>| #[trigger] has_term(dm1, t) implies (in_vocab(
                        cat.take(i as int),
                        t,
                    ) || pv1.contains(t)) by {
                        let q = choose|q: int| 0 <= q < dm1.len() && dm1[q].0 == t;
                        if q < dm.len() {
                            assert(dm[q].0 == t);
                            assert(has_term(dm, t));
                        } else {
                            assert(t == u@);
                            assert(pv1.contains(u@));
                        }
                    }
                    assert forall|t: Seq<char>| (in_vocab(cat.take(i as int), t) || pv1.contains(
                        t,
                    )) implies #[trigger] has_term(dm1, t) by {
                        if in_vocab(cat.take(i as int), t) || pv.contains(t) {
                            assert(has_term(dm, t));
                            let q = choose|q: int| 0 <= q < dm.len() && dm[q].0 == t;
                            assert(dm1[q].0 == t);
                        } else {
                            assert(t == u@);
                            assert(dm1[dm.len() as int].0 == u@);
                        }
                    }
                }
            }
            j = j + 1;
        }
        proof {
            let dm = df@.map_values(|e: IdfEntry| (e.term@, e.value));
            assert(dv.take(d@.len() as int) =~= dv);
            assert forall|k: int| 0 <= k < dm.len() implies (#[trigger] dm[k].1) == df_count(
                cat.take(i + 1),
                dm[k].0,
            ) by {
                lemma_vocab_step(cat, i as int, dm[k].0);
                assert(dv.contains(dm[k].0) <==> ti.contains(dm[k].0));
            }
            assert forall|t: Seq<char>| #[trigger] has_term(dm, t) implies in_vocab(
                cat.take(i + 1),
                t,
            ) by {
                lemma_vocab_step(cat, i as int, t);
                assert(dv.contains(t) <==> ti.contains(t));
            }
            assert forall|t: Seq<char>| in_vocab(cat.take(i + 1), t) implies #[trigger] has_term(
                dm,
                t,
            ) by {
                lemma_vocab_step(cat, i as int, t);
                assert(dv.contains(t) <==> ti.contains(t));
            }
        }
        i = i + 1;
    }
    // The IDF table: ln(N / df) at fixed point, per vocabulary term.
    let ghost dmfull = df@.map_values(|e: IdfEntry| (e.term@, e.value));
    proof {
        assert(cat.take(n as int) =~= cat);
    }
    let mut table_entries: Vec<IdfEntry> = Vec::new();
    let mut k: usize = 0;
    while k < df.len()
        invariant
            k <= df.len(),
            n == cat.len() <= MAX_QUESTIONS,
            n <= MAX_LN_ARG,
            dmfull == df@.map_values(|e: IdfEntry| (e.term@, e.value)),
            dmfull.len() == df@.len(),
            forall|q: int| 0 <= q < dmfull.len() ==> dmfull[q] == (df@[q].term@, df@[q].value),
            forall|a: int, b: int| 0 <= a < b < dmfull.len() ==> dmfull[a].0 != dmfull[b].0,
            forall|q: int|
                0 <= q < dmfull.len() ==> (#[trigger] dmfull[q].1) == df_count(cat, dmfull[q].0),
            forall|q: int| 0 <= q < dmfull.len() ==> 1 <= (#[trigger] dmfull[q].1) <= n,
            forall|t: Seq<char>| #[trigger] has_term(dmfull, t) <==> in_vocab(cat, t),
            ({
                let tm = table_entries@.map_values(|e: IdfEntry| (e.term@, e.value));
                &&& tm.len() == k
                &&& forall|q: int| 0 <= q < k ==> (#[trigger] tm[q]).0 == dmfull[q].0
                &&& forall|q: int|
                    0 <= q < k ==> (#[trigger] tm[q]).1 == idf_value(cat, dmfull[q].0)
                &&& forall|q: int| 0 <= q < k ==> (#[trigger] tm[q]).1 < IDF_BOUND
            }),
        decreases df.len() - k,
    {
        proof {
            assert(1 <= dmfull[k as int].1 <= n);
            assert(n >= 1);
        }
        let ghost tm0 = table_entries@.map_values(|e: IdfEntry| (e.term@, e.value));
        let value = ln_fixed(n as u64, df[k].value);
        table_entries.push(IdfEntry { term: df[k].term.clone(), value });
        proof {
            let tm = table_entries@.map_values(|e: IdfEntry| (e.term@, e.value));
            assert(tm =~= tm0.push((dmfull[k as int].0, value)));
            assert(tm[k as int] == (dmfull[k as int].0, value));
            assert(forall|q: int| 0 <= q < k ==> #[trigger] tm[q] == tm0[q]);
            assert(value == idf_value(cat, dmfull[k as int].0));
        }
        k = k + 1;
    }
    let table = IdfTable { entries: table_entries };
    proof {
        let tm = table.model();
        assert(tm.len() == dmfull.len());
        assert forall|t: Seq<char>| #[trigger] has_term(tm, t) implies in_vocab(cat, t) by {
            let q = choose|q: int| 0 <= q < tm.len() && tm[q].0 == t;
            assert(dmfull[q].0 == t);
            assert(has_term(dmfull, t));
        }
        assert forall|t: Seq<char>| #[trigger] in_vocab(cat, t) implies has_term(tm, t) by {
            assert(has_term(dmfull, t));
            let q = choose|q: int| 0 <= q < dmfull.len() && dmfull[q].0 == t;
            assert(tm[q].0 == t);
        }
        assert(idf_matches(tm, cat));
        assert(table.wf());
    }
    // One TF-IDF vector per question, in catalog order.
    let mut vectors: Vec<DocVector> = Vec::new();
    let mut i: usize = 0;
    while i < n
        invariant
            i <= n,
            n == cat.len() <= MAX_QUESTIONS,
            n == catalog.entries.len(),
            cat == catalog.model(),
            forall|j: int|
                0 <= j < n ==> cat[j] == (
                    catalog.entries@[j].question@,
                    catalog.entries@[j].answer@,
                ),
            all_toks@.len() == n,
            forall|j: int|
                0 <= j < n ==> seq_views((#[trigger] all_toks@[j])@) == toks_of(cat[j].0),
            forall|j: int| 0 <= j < n ==> (#[trigger] all_toks@[j])@.len() <= MAX_TOKENS,
            idf_matches(table.model(), cat),
            table.wf(),
            vectors@.len() == i,
            forall|j: int| 0 <= j < i ==> (#[trigger] vectors@[j]).question@ == cat[j].0,
            forall|j: int|
                0 <= j < i ==> (#[trigger] vectors@[j]).vector.model() == vec_spec(
                    toks_of(cat[j].0),
                    table.model(),
                ),
            forall|j: int| 0 <= j < i ==> (#[trigger] vectors@[j]).vector.wf(),
        decreases n - i,
    {
        let v = vectorize(&all_toks[i], &table);
        proof {
            assert(seq_views(all_toks@[i as int]@) == toks_of(cat[i as int].0));
        }
        vectors.push(DocVector { question: catalog.entries[i].question.clone(), vector: v });
        i = i + 1;
    }
    proof {
        assert forall|i2: int| 0 <= i2 < cat.len() implies (#[trigger] toks_of(
            cat[i2].0,
        )).len() <= MAX_TOKENS by {
            assert(seq_views(all_toks@[i2]@) == toks_of(cat[i2].0));
            assert(seq_views(all_toks@[i2]@).len() == all_toks@[i2]@.len());
        }
    }
    Ok(Index { idf: table, vectors })
}

/// The query's TF-IDF vector under the precomputed table, with the same
/// term-frequency formula as indexing; query terms outside the vocabulary
/// weigh zero however often they repeat.  `None` exactly when the query
/// tokenizes past [`MAX_TOKENS`].
pub fn compute_input_vector(input: &str, idf: &IdfTable) -> (r: Option<TfIdfVector>)
    requires
        idf.wf(),
    ensures
        match r {
            Some(v) => {
                &&& toks_of(input@).len() <= MAX_TOKENS
                &&& v.model() == vec_spec(toks_of(input@), idf.model())
                &&& v.wf()
                &&& v.total == toks_of(input@).len()
            },
            None => toks_of(input@).len() > MAX_TOKENS,
        },
{
    let toks = tokenize(input);
    proof {
        assert(seq_views(toks@).len() == toks@.len());
    }
    if toks.len() > MAX_TOKENS {
        None
    } else {
        Some(vectorize(&toks, idf))
    }
}


} // verus!
