//! The query matcher: vectorizes a free-text query under the precomputed
//! IDF table, scores it against every catalog vector by cosine similarity,
//! and picks the response.
//!
//! Selection is deterministic: catalog insertion order is scanned in order
//! and only a strictly greater score displaces the best match, so the first
//! of equal scores wins.  Zero-magnitude vectors (empty catalog entry,
//! empty query, query of unknown terms) score zero, never an undefined
//! value.  The confidence threshold is strict: a score of exactly one half
//! falls to the closest-question fallback.

use vstd::prelude::*;

verus! {

use vstd::string::StringExecFns;
use crate::fraccmp::FracRel;
use crate::fraccmp::compare_fracs;
use crate::index::Catalog;
use crate::index::CatModel;
use crate::index::Index;
use crate::index::IndexError;
use crate::index::MAX_TOKENS;
use crate::index::build_index;
use crate::index::compute_input_vector;
use crate::index::toks_of;
use crate::index::vec_spec;
use crate::vector::SUM_CAP;
use crate::vector::VecModel;
use crate::vector::dot;
use crate::vector::lemma_dot_le;
use crate::vector::lemma_zero_mag;
use crate::vector::mag;
use crate::vector::sim_lt;
use crate::vector::sim_lt_exec;
use crate::vector::vec_wf;

/// The response when no catalog question is relevant at all.
pub open spec fn no_match_msg() -> Seq<char> {
    "I'm sorry, I couldn't find a relevant question. Please try rephrasing your question."@
}

/// The response naming the closest, below-threshold question.
pub open spec fn closest_msg(q: Seq<char>) -> Seq<char> {
    "I'm sorry, I don't have specific information about that. The closest question I can answer is: '"@
        + q + "'. Would you like me to answer that instead?"@
}

/// The stored vector of catalog question `i`.
pub open spec fn doc_model(cat: CatModel, tblm: VecModel, i: int) -> VecModel {
    vec_spec(toks_of(cat[i].0), tblm)
}

/// Whether a score strictly clears the one-half threshold:
/// `d / sqrt(m1 * m2) > 1/2`, squared exactly: `4 * d^2 > m1 * m2`.
/// A zero magnitude means a zero score, which never clears it.
pub open spec fn above_half(d: int, m1: int, m2: int) -> bool {
    4 * d * d > m1 * m2
}

/// The index of the best-scoring question among the first `n`, first
/// strictly greater wins: position 0 starts as best and `i` displaces the
/// best `b` only when the score of `b` lies strictly below the score of
/// `i`.
pub open spec fn best_upto(qv: VecModel, cat: CatModel, tblm: VecModel, n: int) -> int
    decreases n,
{
    if n <= 1 {
        0
    } else {
        let b = best_upto(qv, cat, tblm, n - 1);
        if sim_lt(
            dot(qv, doc_model(cat, tblm, b)),
            mag(doc_model(cat, tblm, b)),
            dot(qv, doc_model(cat, tblm, n - 1)),
            mag(doc_model(cat, tblm, n - 1)),
        ) {
            n - 1
        } else {
            b
        }
    }
}

/// The best index stays in range.
pub proof fn lemma_best_upto_range(qv: VecModel, cat: CatModel, tblm: VecModel, n: int)
    requires
        n >= 1,
    ensures
        0 <= best_upto(qv, cat, tblm, n) < n,
    decreases n,
{
    if n > 1 {
        lemma_best_upto_range(qv, cat, tblm, n - 1);
    }
}

/// The whole matcher as one function of the catalog, the IDF table and the
/// query text: the response the library returns, character for character.
pub open spec fn answer_spec(cat: CatModel, tblm: VecModel, input: Seq<char>) -> Seq<char> {
    let toks = toks_of(input);
    if toks.len() > MAX_TOKENS {
        no_match_msg()
    } else if cat.len() == 0 {
        no_match_msg()
    } else {
        let qv = vec_spec(toks, tblm);
        let b = best_upto(qv, cat, tblm, cat.len() as int);
        let db = dot(qv, doc_model(cat, tblm, b));
        let mb = mag(doc_model(cat, tblm, b));
        if above_half(db, mag(qv), mb) {
            cat[b].1
        } else {
            closest_msg(cat[b].0)
        }
    }
}

/// The fixed no-match response.
fn no_match_string() -> (r: String)
    ensures
        r@ == no_match_msg(),
{
    "I'm sorry, I couldn't find a relevant question. Please try rephrasing your question.".to_owned()
}

/// Decides [`above_half`] exactly, as the comparison of two exact
/// fractions.
fn above_half_exec(d: u64, m1: u64, m2: u64) -> (r: bool)
    requires
        m2 == 0 ==> d == 0,
        m1 == 0 ==> d == 0,
        d as int <= (SUM_CAP as int) * (SUM_CAP as int),
    ensures
        r == above_half(d as int, m1 as int, m2 as int),
{
    if m2 == 0 || m1 == 0 {
        false
    } else {
        proof {
            assert(4 * (d as int) * (d as int) < 0x1_0000_0000_0000_0000_0000_0000_0000_0000)
                by (nonlinear_arith)
                requires
                    0 <= d as int <= (SUM_CAP as int) * (SUM_CAP as int),
                    SUM_CAP == 151171072u64,
            ;
        }
        let dd: u128 = 4 * (d as u128) * (d as u128);
        let rel = compare_fracs(dd, m2 as u128, m1 as u128, 1);
        proof {
            assert(dd as int == 4 * (d as int) * (d as int));
            assert((m1 as int) * (m2 as int) == (m1 as int) * (m2 as int));
        }
        rel == FracRel::Above
    }
}

/// The question-answering engine: the immutable catalog and its index,
/// built once and queried any number of times with no mutable state.
pub struct Matcher {
    catalog: Catalog,
    index: Index,
}

impl Matcher {
    /// The catalog held, as character sequences.
    pub closed spec fn cat_model(self) -> CatModel {
        self.catalog.model()
    }

    /// The IDF table held, as (term, value) pairs.
    pub closed spec fn idf_model(self) -> VecModel {
        self.index.idf.model()
    }

    #[verifier::type_invariant]
    spec fn inv(self) -> bool {
        &&& self.catalog.wf()
        &&& self.index.wf_for(self.catalog.model())
    }

    /// Builds the index of `catalog` and wraps both; an oversized catalog
    /// is rejected with the exact cause, as a startup failure.
    pub fn new(catalog: Catalog) -> (r: Result<Matcher, IndexError>)
        requires
            catalog.wf(),
        ensures
            match r {
                Ok(m) => {
                    &&& m.cat_model() == catalog.model()
                    &&& crate::index::idf_matches(m.idf_model(), m.cat_model())
                    &&& forall|i: int|
                        0 <= i < m.cat_model().len() ==> (#[trigger] toks_of(
                            m.cat_model()[i].0,
                        )).len() <= MAX_TOKENS
                },
                Err(e) => match e {
                    IndexError::TooManyQuestions => catalog.model().len()
                        > crate::index::MAX_QUESTIONS,
                    IndexError::QuestionTooLong => catalog.model().len()
                        <= crate::index::MAX_QUESTIONS && exists|i: int|
                        0 <= i < catalog.model().len() && (#[trigger] toks_of(
                            catalog.model()[i].0,
                        )).len() > MAX_TOKENS,
                },
            },
    {
        match build_index(&catalog) {
            Ok(index) => Ok(Matcher { catalog, index }),
            Err(e) => Err(e),
        }
    }

    /// How many questions the catalog holds.
    pub fn question_count(&self) -> (n: usize)
        ensures
            n == self.cat_model().len(),
    {
        proof {
            use_type_invariant(self);
        }
        self.catalog.len()
    }

    /// Answers one query: the stored answer of the best-scoring question
    /// when its cosine similarity strictly exceeds one half, else a
    /// fallback naming the closest question, or the fixed no-match message
    /// when the catalog is empty (or the query is over the token bound).
    /// Pure: the response is a function of catalog, table and query text.
    pub fn answer(&self, input: &str) -> (r: String)
        ensures
            r@ == answer_spec(self.cat_model(), self.idf_model(), input@),
    {
        proof {
            use_type_invariant(self);
        }
        let ghost cat = self.catalog.model();
        let ghost tblm = self.index.idf.model();
        let qv = match compute_input_vector(input, &self.index.idf) {
            Some(v) => v,
            None => {
                return no_match_string();
            },
        };
        let n = self.index.question_count();
        if n == 0 {
            return no_match_string();
        }
        let ghost qvm = qv.model();
        let m1 = crate::vector::mag_exec(&qv);
        let mut best: usize = 0;
        let mut bd: u64 = crate::vector::dot_exec(&qv, self.index.vector_at(0));
        let mut bm: u64 = crate::vector::mag_exec(self.index.vector_at(0));
        let mut i: usize = 1;
        while i < n
            invariant
                1 <= i <= n,
                best < i,
                n == cat.len(),
                self.inv(),
                cat == self.catalog.model(),
                tblm == self.index.idf.model(),
                qvm == qv.model(),
                vec_wf(qvm),
                best == best_upto(qvm, cat, tblm, i as int),
                bd == dot(qvm, doc_model(cat, tblm, best as int)),
                bm == mag(doc_model(cat, tblm, best as int)),
            decreases n - i,
        {
            proof {
                assert(self.index.vectors@[i as int].vector.model() == doc_model(
                    cat,
                    tblm,
                    i as int,
                ));
            }
            let di = crate::vector::dot_exec(&qv, self.index.vector_at(i));
            let mi = crate::vector::mag_exec(self.index.vector_at(i));
            proof {
                assert(self.index.vectors@[best as int].vector.model() == doc_model(
                    cat,
                    tblm,
                    best as int,
                ));
                assert(self.index.vectors@[best as int].vector.wf());
                assert(self.index.vectors@[i as int].vector.wf());
                assert(vec_wf(doc_model(cat, tblm, best as int)));
                assert(vec_wf(doc_model(cat, tblm, i as int)));
                if bm == 0 {
                    lemma_zero_mag(doc_model(cat, tblm, best as int), qvm);
                }
                if mi == 0 {
                    lemma_zero_mag(doc_model(cat, tblm, i as int), qvm);
                }
            }
            let replace = sim_lt_exec(bd, bm, di, mi);
            if replace {
                best = i;
                bd = di;
                bm = mi;
            }
            i = i + 1;
        }
        proof {
            lemma_best_upto_range(qvm, cat, tblm, n as int);
            assert(self.index.vectors@[best as int].vector.model() == doc_model(
                cat,
                tblm,
                best as int,
            ));
            assert(self.index.vectors@[best as int].vector.wf());
            assert(vec_wf(doc_model(cat, tblm, best as int)));
            if bm == 0 {
                lemma_zero_mag(doc_model(cat, tblm, best as int), qvm);
            }
            if m1 == 0 {
                lemma_zero_mag(qvm, doc_model(cat, tblm, best as int));
            }
            lemma_dot_le(qvm, doc_model(cat, tblm, best as int));
            crate::vector::lemma_lookup_le_sum(qvm, Seq::empty());
            crate::vector::lemma_lookup_le_sum(doc_model(cat, tblm, best as int), Seq::empty());
            assert(dot(qvm, doc_model(cat, tblm, best as int)) <= (SUM_CAP as int) * (
            SUM_CAP as int)) by (nonlinear_arith)
                requires
                    dot(qvm, doc_model(cat, tblm, best as int)) <= crate::vector::sum_nums(qvm)
                        * crate::vector::sum_nums(doc_model(cat, tblm, best as int)),
                    0 <= crate::vector::sum_nums(qvm) <= SUM_CAP as int,
                    0 <= crate::vector::sum_nums(doc_model(cat, tblm, best as int)) <= (
                    SUM_CAP as int),
            ;
        }
        let is_direct = above_half_exec(bd, m1, bm);
        if is_direct {
            self.catalog.answer_at(best).clone()
        } else {
            let mut msg: String =
                "I'm sorry, I don't have specific information about that. The closest question I can answer is: '".to_owned();
            msg.append(self.catalog.question_at(best).as_str());
            msg.append("'. Would you like me to answer that instead?");
            msg
        }
    }
}


/// An empty catalog answers every query with the fixed no-match message,
/// whatever the table and whatever the input.
pub proof fn lemma_empty_catalog_answer(tblm: VecModel, input: Seq<char>)
    ensures
        answer_spec(Seq::empty(), tblm, input) == no_match_msg(),
{
}

/// Answering is idempotent: two calls on one catalog, one table and one
/// query text are the same response; there is no hidden ranking state.
pub proof fn lemma_answer_deterministic(
    cat: CatModel,
    tblm: VecModel,
    input: Seq<char>,
    r1: Seq<char>,
    r2: Seq<char>,
)
    requires
        r1 == answer_spec(cat, tblm, input),
        r2 == answer_spec(cat, tblm, input),
    ensures
        r1 == r2,
{
}

/// Selection helper: when the query vector equals question `i`'s nonzero
/// vector and no earlier question ties the full score, scanning any prefix
/// that reaches `i` selects `i`.
proof fn lemma_exact_best(cat: CatModel, tblm: VecModel, input: Seq<char>, i: int, n: int)
    requires
        forall|k: int| 0 <= k < tblm.len() ==> (#[trigger] tblm[k].1) < crate::lnfix::IDF_BOUND,
        forall|j: int| 0 <= j < cat.len() ==> (#[trigger] toks_of(cat[j].0)).len() <= MAX_TOKENS,
        0 <= i < n <= cat.len(),
        vec_spec(toks_of(input), tblm) == doc_model(cat, tblm, i),
        mag(doc_model(cat, tblm, i)) > 0,
        forall|j: int|
            0 <= j < i ==> dot(vec_spec(toks_of(input), tblm), (#[trigger] doc_model(
                cat,
                tblm,
                j,
            ))) * dot(vec_spec(toks_of(input), tblm), doc_model(cat, tblm, j)) != mag(
                vec_spec(toks_of(input), tblm),
            ) * mag(doc_model(cat, tblm, j)),
    ensures
        best_upto(vec_spec(toks_of(input), tblm), cat, tblm, n) == i,
    decreases n,
{
    let qv = vec_spec(toks_of(input), tblm);
    let m = mag(qv);
    crate::index::lemma_vec_spec_props(toks_of(cat[i].0), tblm);
    if n == i + 1 {
        if i == 0 {
        } else {
            let b = best_upto(qv, cat, tblm, n - 1);
            lemma_best_upto_range(qv, cat, tblm, n - 1);
            crate::index::lemma_vec_spec_props(toks_of(cat[b].0), tblm);
            let db = dot(qv, doc_model(cat, tblm, b));
            let mb = mag(doc_model(cat, tblm, b));
            crate::vector::lemma_cauchy_schwarz(qv, doc_model(cat, tblm, b));
            assert(db * db != m * mb);
            assert(db * db < m * mb);
            if mb == 0 {
                crate::vector::lemma_dot_self(qv);
                assert(sim_lt(db, mb, dot(qv, doc_model(cat, tblm, i)), m));
            } else {
                crate::vector::lemma_dot_self(qv);
                assert(dot(qv, doc_model(cat, tblm, i)) == m);
                assert(db * db * m < m * m * mb) by (nonlinear_arith)
                    requires
                        db * db < m * mb,
                        m > 0,
                ;
                assert(sim_lt(db, mb, m, m));
            }
        }
    } else {
        lemma_exact_best(cat, tblm, input, i, n - 1);
        let j = n - 1;
        crate::index::lemma_vec_spec_props(toks_of(cat[j].0), tblm);
        let dj = dot(qv, doc_model(cat, tblm, j));
        let mj = mag(doc_model(cat, tblm, j));
        crate::vector::lemma_cauchy_schwarz(qv, doc_model(cat, tblm, j));
        crate::vector::lemma_dot_self(qv);
        assert(dot(qv, doc_model(cat, tblm, i)) == m);
        if mj != 0 {
            assert(dj * dj <= m * mj);
            assert(!(m * m * mj < dj * dj * m)) by (nonlinear_arith)
                requires
                    dj * dj <= m * mj,
                    m > 0,
            ;
            assert(!sim_lt(m, m, dj, mj));
        } else {
            assert(!sim_lt(m, m, dj, mj));
        }
    }
}

/// A query that tokenizes exactly like catalog question `i` scores a full
/// similarity of one against that question's vector; when that vector is
/// not zero and no earlier question ties the full score, question `i` is
/// selected as best match, the score clears the strict one-half threshold,
/// and the response is the question's stored answer, verbatim.
pub proof fn lemma_exact_match_answered(cat: CatModel, tblm: VecModel, input: Seq<char>, i: int)
    requires
        forall|k: int| 0 <= k < tblm.len() ==> (#[trigger] tblm[k].1) < crate::lnfix::IDF_BOUND,
        forall|j: int| 0 <= j < cat.len() ==> (#[trigger] toks_of(cat[j].0)).len() <= MAX_TOKENS,
        0 <= i < cat.len(),
        toks_of(input) == toks_of(cat[i].0),
        mag(doc_model(cat, tblm, i)) > 0,
        forall|j: int|
            0 <= j < i ==> dot(vec_spec(toks_of(input), tblm), (#[trigger] doc_model(
                cat,
                tblm,
                j,
            ))) * dot(vec_spec(toks_of(input), tblm), doc_model(cat, tblm, j)) != mag(
                vec_spec(toks_of(input), tblm),
            ) * mag(doc_model(cat, tblm, j)),
    ensures
        answer_spec(cat, tblm, input) == cat[i].1,
{
    let toks = toks_of(input);
    let qv = vec_spec(toks, tblm);
    assert(qv == doc_model(cat, tblm, i));
    lemma_exact_best(cat, tblm, input, i, cat.len() as int);
    crate::index::lemma_vec_spec_props(toks_of(cat[i].0), tblm);
    crate::vector::lemma_dot_self(qv);
    let m = mag(qv);
    assert(above_half(m, m, m)) by (nonlinear_arith)
        requires
            m >= 1,
    ;
}

} // verus!
