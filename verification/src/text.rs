//! Tokenization: question and query text is lowercased and split on runs of
//! whitespace; each resulting token is a term.  No stemming and no
//! punctuation stripping happen beyond the whitespace split.
//!
//! Lowercasing and the whitespace test come from std; both are pure
//! functions of their argument and are named by the uninterpreted spec
//! functions [`lower_of`] and [`is_space`].  The split itself is this
//! library's logic and is verified against [`tokens`].

use vstd::prelude::*;

verus! {

use vstd::string::StrSliceExecFns;

/// Whether `c` counts as whitespace, exactly as std's `char::is_whitespace`
/// decides it: a fact of the character alone.
pub uninterp spec fn is_space(c: char) -> bool;

/// The lowercase form of the text `s`, exactly as std's `str::to_lowercase`
/// produces it: a function of the characters alone.
pub uninterp spec fn lower_of(s: Seq<char>) -> Seq<char>;

/// Relies on std's `char::is_whitespace`: whether the character has the
/// Unicode `White_Space` property.
pub assume_specification[ char::is_whitespace ](c: char) -> (r: bool)
    ensures
        r == is_space(c),
;

/// Relies on std's `str::to_lowercase`: the Unicode lowercase mapping of
/// the text, which depends on the characters alone; an empty string stays
/// empty.
pub assume_specification[ str::to_lowercase ](s: &str) -> (r: String)
    ensures
        r@ == lower_of(s@),
        s@.len() == 0 ==> r@.len() == 0,
;

/// The views of a sequence of owned strings.
pub open spec fn seq_views(ts: Seq<String>) -> Seq<Seq<char>> {
    ts.map_values(|t: String| t@)
}

/// Length of the leading run of non-space characters of `s`.
pub open spec fn word_len(s: Seq<char>) -> nat
    decreases s.len(),
{
    if s.len() == 0 || is_space(s[0]) {
        0
    } else {
        1 + word_len(s.drop_first())
    }
}

/// The whitespace-delimited tokens of `s`, in order of appearance.
pub open spec fn tokens(s: Seq<char>) -> Seq<Seq<char>>
    decreases s.len(),
    via tokens_decreases
{
    if s.len() == 0 {
        Seq::empty()
    } else if is_space(s[0]) {
        tokens(s.drop_first())
    } else {
        seq![s.take(word_len(s) as int)] + tokens(s.skip(word_len(s) as int))
    }
}

/// A word never runs past the end of the text.
pub proof fn lemma_word_len_le(s: Seq<char>)
    ensures
        word_len(s) <= s.len(),
    decreases s.len(),
{
    if s.len() > 0 && !is_space(s[0]) {
        lemma_word_len_le(s.drop_first());
    }
}

#[via_fn]
proof fn tokens_decreases(s: Seq<char>) {
    if s.len() > 0 && !is_space(s[0]) {
        assert(word_len(s) == 1 + word_len(s.drop_first()));
        lemma_word_len_le(s);
        assert(s.skip(word_len(s) as int).len() < s.len());
    }
}

/// How many times the term `t` occurs among the tokens `toks`.
pub open spec fn count_term(toks: Seq<Seq<char>>, t: Seq<char>) -> int
    decreases toks.len(),
{
    if toks.len() == 0 {
        0
    } else {
        count_term(toks.drop_last(), t) + if toks.last() == t {
            1int
        } else {
            0int
        }
    }
}

/// The distinct tokens of `toks`, each at its first occurrence.
pub open spec fn dedup(toks: Seq<Seq<char>>) -> Seq<Seq<char>>
    decreases toks.len(),
{
    if toks.len() == 0 {
        Seq::empty()
    } else {
        let p = dedup(toks.drop_last());
        if p.contains(toks.last()) {
            p
        } else {
            p.push(toks.last())
        }
    }
}

/// A term occurs among the tokens exactly when its count is positive, and
/// the count never exceeds the number of tokens.
pub proof fn lemma_count_term_bounds(toks: Seq<Seq<char>>, t: Seq<char>)
    ensures
        0 <= count_term(toks, t) <= toks.len(),
        toks.contains(t) <==> count_term(toks, t) > 0,
    decreases toks.len(),
{
    if toks.len() > 0 {
        lemma_count_term_bounds(toks.drop_last(), t);
        if toks.contains(t) && toks.last() != t {
            let k = choose|k: int| 0 <= k < toks.len() && toks[k] == t;
            assert(toks.drop_last()[k] == t);
            assert(toks.drop_last().contains(t));
        }
        if toks.drop_last().contains(t) {
            let k = choose|k: int| 0 <= k < toks.len() - 1 && toks.drop_last()[k] == t;
            assert(toks[k] == t);
        }
    }
}

/// The deduplicated tokens hold no repeats and exactly the terms that occur.
pub proof fn lemma_dedup_facts(toks: Seq<Seq<char>>)
    ensures
        forall|t: Seq<char>| dedup(toks).contains(t) <==> toks.contains(t),
        forall|i: int, j: int|
            0 <= i < j < dedup(toks).len() ==> dedup(toks)[i] != dedup(toks)[j],
        dedup(toks).len() <= toks.len(),
    decreases toks.len(),
{
    if toks.len() > 0 {
        lemma_dedup_facts(toks.drop_last());
        let p = dedup(toks.drop_last());
        assert forall|t: Seq<char>| dedup(toks).contains(t) implies toks.contains(t) by {
            if p.contains(t) {
                assert(toks.drop_last().contains(t));
                let k = choose|k: int| 0 <= k < toks.len() - 1 && toks.drop_last()[k] == t;
                assert(toks[k] == t);
            } else {
                assert(t == toks.last());
                assert(toks[toks.len() - 1] == t);
            }
        }
        assert forall|t: Seq<char>| toks.contains(t) implies dedup(toks).contains(t) by {
            let k = choose|k: int| 0 <= k < toks.len() && toks[k] == t;
            if k < toks.len() - 1 {
                assert(toks.drop_last()[k] == t);
                assert(toks.drop_last().contains(t));
                if !p.contains(toks.last()) {
                    assert(p.push(toks.last()).contains(t)) by {
                        let m = choose|m: int| 0 <= m < p.len() && p[m] == t;
                        assert(p.push(toks.last())[m] == t);
                    }
                }
            } else {
                assert(t == toks.last());
                if !p.contains(t) {
                    assert(p.push(t)[p.len() as int] == t);
                }
            }
        }
    }
}

/// A leading run of exactly `w` non-space characters gives `word_len == w`.
proof fn lemma_word_len_exact(s: Seq<char>, w: int)
    requires
        0 <= w <= s.len(),
        forall|m: int| 0 <= m < w ==> !is_space(s[m]),
        w == s.len() || is_space(s[w]),
    ensures
        word_len(s) == w,
    decreases w,
{
    if w == 0 {
    } else {
        assert(!is_space(s[0]));
        lemma_word_len_exact(s.drop_first(), w - 1);
    }
}

/// Lowercases `input` and splits it into its whitespace-delimited tokens.
pub fn tokenize(input: &str) -> (toks: Vec<String>)
    ensures
        seq_views(toks@) == tokens(lower_of(input@)),
{
    let low: String = input.to_lowercase();
    let lref: &str = low.as_str();
    let n: usize = lref.unicode_len();
    let mut toks: Vec<String> = Vec::new();
    let mut i: usize = 0;
    proof {
        assert(lref@.skip(0) == lref@);
        assert(seq_views(toks@) + tokens(lref@) == tokens(lref@));
    }
    while i < n
        invariant
            i <= n,
            n == lref@.len(),
            lref@ == lower_of(input@),
            tokens(lower_of(input@)) == seq_views(toks@) + tokens(lref@.skip(i as int)),
        decreases n - i,
    {
        let c = lref.get_char(i);
        if c.is_whitespace() {
            proof {
                assert(lref@.skip(i as int).drop_first() == lref@.skip(i + 1));
            }
            i = i + 1;
        } else {
            let mut j: usize = i + 1;
            while j < n
                invariant_except_break
                    i < j <= n,
                    n == lref@.len(),
                    forall|m: int| i <= m < j ==> !is_space(lref@[m]),
                ensures
                    i < j <= n,
                    n == lref@.len(),
                    forall|m: int| i <= m < j ==> !is_space(lref@[m]),
                    j == n || is_space(lref@[j as int]),
                decreases n - j,
            {
                let cj = lref.get_char(j);
                if cj.is_whitespace() {
                    break;
                }
                j = j + 1;
            }
            let word: String = lref.substring_char(i, j).to_owned();
            proof {
                let suf = lref@.skip(i as int);
                assert forall|m: int| 0 <= m < j - i implies !is_space(suf[m]) by {
                    assert(suf[m] == lref@[m + i]);
                }
                if j < n {
                    assert(suf[j - i] == lref@[j as int]);
                }
                lemma_word_len_exact(suf, j - i);
                assert(word@ == suf.take(j - i));
                assert(suf.skip(j - i) == lref@.skip(j as int));
                assert(tokens(suf) == seq![suf.take(j - i)] + tokens(lref@.skip(j as int)));
                assert(seq_views(toks@.push(word)) == seq_views(toks@).push(word@));
                assert(seq_views(toks@) + (seq![word@] + tokens(lref@.skip(j as int)))
                    == seq_views(toks@).push(word@) + tokens(lref@.skip(j as int)));
            }
            toks.push(word);
            i = j;
        }
    }
    proof {
        assert(lref@.skip(n as int) =~= Seq::<char>::empty());
        assert(tokens(lref@.skip(n as int)) =~= Seq::<Seq<char>>::empty());
        assert(seq_views(toks@) + tokens(lref@.skip(n as int)) =~= seq_views(toks@));
    }
    toks
}

/// Whether some string among `v` reads `t`.
pub fn contains_str(v: &Vec<String>, t: &String) -> (r: bool)
    ensures
        r == seq_views(v@).contains(t@),
{
    let mut k: usize = 0;
    while k < v.len()
        invariant
            k <= v.len(),
            forall|m: int| 0 <= m < k ==> seq_views(v@)[m] != t@,
        decreases v.len() - k,
    {
        if v[k] == *t {
            assert(seq_views(v@)[k as int] == t@);
            return true;
        }
        k = k + 1;
    }
    false
}

/// The distinct tokens of `toks`, each at its first occurrence.
pub fn dedup_tokens(toks: &Vec<String>) -> (d: Vec<String>)
    ensures
        seq_views(d@) == dedup(seq_views(toks@)),
{
    let mut d: Vec<String> = Vec::new();
    let mut k: usize = 0;
    proof {
        assert(seq_views(toks@).take(0) =~= Seq::<Seq<char>>::empty());
        assert(seq_views(d@) =~= dedup(seq_views(toks@).take(0)));
    }
    while k < toks.len()
        invariant
            k <= toks.len(),
            seq_views(d@) == dedup(seq_views(toks@).take(k as int)),
        decreases toks.len() - k,
    {
        let t = &toks[k];
        let present = contains_str(&d, t);
        proof {
            let pre = seq_views(toks@).take(k as int);
            let pre1 = seq_views(toks@).take(k + 1);
            assert(pre1.drop_last() =~= pre);
            assert(pre1.last() == t@);
        }
        if !present {
            let copy: String = t.as_str().to_owned();
            proof {
                assert(seq_views(d@.push(copy)) =~= seq_views(d@).push(copy@));
            }
            d.push(copy);
        }
        k = k + 1;
    }
    proof {
        assert(seq_views(toks@).take(toks@.len() as int) =~= seq_views(toks@));
    }
    d
}

/// How often the term `t` occurs among `toks`.
pub fn count_occurrences(toks: &Vec<String>, t: &String) -> (c: usize)
    ensures
        c == count_term(seq_views(toks@), t@),
{
    let mut c: usize = 0;
    let mut k: usize = 0;
    proof {
        assert(seq_views(toks@).take(0) =~= Seq::<Seq<char>>::empty());
    }
    while k < toks.len()
        invariant
            k <= toks.len(),
            c <= k,
            c == count_term(seq_views(toks@).take(k as int), t@),
        decreases toks.len() - k,
    {
        proof {
            let pre = seq_views(toks@).take(k as int);
            let pre1 = seq_views(toks@).take(k + 1);
            assert(pre1.drop_last() =~= pre);
            assert(pre1.last() == seq_views(toks@)[k as int]);
            lemma_count_term_bounds(pre1, t@);
        }
        if toks[k] == *t {
            c = c + 1;
        }
        k = k + 1;
    }
    proof {
        assert(seq_views(toks@).take(toks@.len() as int) =~= seq_views(toks@));
    }
    c
}

} // verus!
