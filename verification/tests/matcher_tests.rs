use tfidf_qa::index::Catalog;
use tfidf_qa::index::IndexError;
use tfidf_qa::index::build_index;
use tfidf_qa::index::compute_input_vector;
use tfidf_qa::lnfix::ln_fixed;
use tfidf_qa::matcher::Matcher;
use tfidf_qa::text::tokenize;
use tfidf_qa::vector::similarity;

const NO_MATCH: &str =
    "I'm sorry, I couldn't find a relevant question. Please try rephrasing your question.";

fn closest(q: &str) -> String {
    format!(
        "I'm sorry, I don't have specific information about that. The closest question I can answer is: '{}'. Would you like me to answer that instead?",
        q
    )
}

fn thoughtful_catalog() -> Catalog {
    let mut c = Catalog::new();
    c.insert(
        "What is Thoughtful AI?".to_string(),
        "Thoughtful AI builds automation for healthcare.".to_string(),
    );
    c.insert(
        "How do I reset my password?".to_string(),
        "Use the reset link on the sign-in page.".to_string(),
    );
    c
}

#[test]
fn ln_fixed_exact_powers_of_two() {
    // ln(1) == 0, ln(2) == LN2_SCALED, ln(4) == 2 * LN2_SCALED, at scale 4096.
    assert_eq!(ln_fixed(1, 1), 0);
    assert_eq!(ln_fixed(2, 1), 2839);
    assert_eq!(ln_fixed(4, 1), 5678);
    assert_eq!(ln_fixed(4, 2), 2839);
    assert_eq!(ln_fixed(4096, 4096), 0);
}

#[test]
fn ln_fixed_between_powers() {
    let v = ln_fixed(3, 1);
    assert!(v > 2839 && v < 5678);
    // ln(3) is about 1.0986; at scale 4096 that is about 4500.
    assert!(v > 4400 && v < 4600);
}

#[test]
fn tokenize_lowercases_and_splits_on_whitespace_runs() {
    let toks = tokenize("  What  IS\tThoughtful\nAI? ");
    let toks: Vec<&str> = toks.iter().map(|s| s.as_str()).collect();
    assert_eq!(toks, vec!["what", "is", "thoughtful", "ai?"]);
    assert!(tokenize("").is_empty());
    assert!(tokenize("   \t\n").is_empty());
}

#[test]
fn catalog_insert_replaces_repeated_question() {
    let mut c = Catalog::new();
    c.insert("Q one".to_string(), "first".to_string());
    c.insert("Q two".to_string(), "second".to_string());
    c.insert("Q one".to_string(), "revised".to_string());
    assert_eq!(c.len(), 2);
    assert_eq!(c.answer_at(0).as_str(), "revised");
    assert_eq!(c.question_at(1).as_str(), "Q two");
}

#[test]
fn build_index_one_vector_per_question_and_vocab_keys() {
    // Exactly one vector per question; the IDF keys are the vocabulary.
    let mut c = Catalog::new();
    c.insert("what is ai".to_string(), "a1".to_string());
    c.insert("who is ai".to_string(), "a2".to_string());
    let ix = build_index(&c).ok().unwrap();
    assert_eq!(ix.question_count(), 2);
    let idf = ix.idf_table();
    assert_eq!(idf.len(), 4); // what, is, ai, who
    // df(is) == df(ai) == 2 of 2 questions: idf 0. df(what) == df(who) == 1: ln(2).
    assert_eq!(idf.value_of(&"what".to_string()), Some(2839));
    assert_eq!(idf.value_of(&"who".to_string()), Some(2839));
    assert_eq!(idf.value_of(&"is".to_string()), Some(0));
    assert_eq!(idf.value_of(&"ai".to_string()), Some(0));
    assert_eq!(idf.value_of(&"banana".to_string()), None);
}

#[test]
fn exact_query_scores_one_and_returns_stored_answer() {
    // A query identical to a catalog question under tokenization is the
    // best match with similarity 1 and yields the exact stored answer.
    let m = Matcher::new(thoughtful_catalog()).ok().unwrap();
    let r = m.answer("what is thoughtful ai?");
    assert_eq!(r, "Thoughtful AI builds automation for healthcare.");
}

#[test]
fn similarity_is_symmetric() {
    // Swapping the vectors swaps the magnitudes and keeps the dot.
    let mut c = Catalog::new();
    c.insert("alpha beta gamma".to_string(), "x".to_string());
    c.insert("beta delta".to_string(), "y".to_string());
    c.insert("epsilon zeta".to_string(), "z".to_string());
    let ix = build_index(&c).ok().unwrap();
    let s12 = similarity(ix.vector_at(0), ix.vector_at(1));
    let s21 = similarity(ix.vector_at(1), ix.vector_at(0));
    assert_eq!(s12.dp, s21.dp);
    assert_eq!(s12.m1, s21.m2);
    assert_eq!(s12.m2, s21.m1);
    assert!(s12.dp > 0);
}

#[test]
fn score_of_exactly_one_half_falls_to_the_closest_fallback() {
    // The threshold is strict. Four questions sharing the term `a`
    // (IDF 0) plus one unique term each; the query holds all four unique
    // terms, so every score is exactly one half.
    let mut c = Catalog::new();
    c.insert("a b".to_string(), "answer b".to_string());
    c.insert("a c".to_string(), "answer c".to_string());
    c.insert("a e".to_string(), "answer e".to_string());
    c.insert("a f".to_string(), "answer f".to_string());
    let m = Matcher::new(c).ok().unwrap();
    let r = m.answer("b c e f");
    assert_eq!(r, closest("a b"));
}

#[test]
fn empty_catalog_always_answers_no_match() {
    // With no catalog questions, every input gets the fixed message.
    let m = Matcher::new(Catalog::new()).ok().unwrap();
    assert_eq!(m.answer("anything at all"), NO_MATCH);
    assert_eq!(m.answer(""), NO_MATCH);
    assert_eq!(m.answer("what is thoughtful ai"), NO_MATCH);
}

#[test]
fn single_question_catalog_has_all_zero_idf() {
    // With one question every term is in every document, so every IDF is
    // ln(1/1) == 0, both vectors are empty and every score is zero: even
    // the word-for-word query falls to the closest-question fallback.
    let mut c = Catalog::new();
    c.insert(
        "What is Thoughtful AI?".to_string(),
        "Thoughtful AI builds automation for healthcare.".to_string(),
    );
    let m = Matcher::new(c).ok().unwrap();
    let r = m.answer("what is thoughtful ai?");
    assert_eq!(r, closest("What is Thoughtful AI?"));
}

#[test]
fn unknown_term_query_has_empty_vector_and_closest_fallback() {
    // A query of terms outside the vocabulary vectorizes to the empty
    // vector, scores zero (not an undefined value) and names the closest
    // question.
    let mut c = Catalog::new();
    c.insert(
        "What is Thoughtful AI?".to_string(),
        "Thoughtful AI builds automation for healthcare.".to_string(),
    );
    let ix = build_index(&c).ok().unwrap();
    let v = compute_input_vector("banana", ix.idf_table()).unwrap();
    assert!(v.is_empty());
    let m = Matcher::new(c).ok().unwrap();
    assert_eq!(m.answer("banana"), closest("What is Thoughtful AI?"));
}

#[test]
fn answering_twice_gives_identical_responses() {
    // No hidden mutable ranking state.
    let m = Matcher::new(thoughtful_catalog()).ok().unwrap();
    let r1 = m.answer("how do i reset my password?");
    let r2 = m.answer("how do i reset my password?");
    assert_eq!(r1, r2);
    assert_eq!(r1, "Use the reset link on the sign-in page.");
}

#[test]
fn input_vector_counts_repeats_and_tracks_totals() {
    let mut c = Catalog::new();
    c.insert("what is ai".to_string(), "a1".to_string());
    c.insert("who is ai".to_string(), "a2".to_string());
    let ix = build_index(&c).ok().unwrap();
    let v = compute_input_vector("What what WHO", ix.idf_table()).unwrap();
    assert_eq!(v.token_total(), 3);
    // weight numerators are count * idf; `is`/`ai` would weigh zero.
    assert_eq!(v.num_of(&"what".to_string()), Some(2 * 2839));
    assert_eq!(v.num_of(&"who".to_string()), Some(2839));
    assert_eq!(v.num_of(&"is".to_string()), None);
    let empty = compute_input_vector("", ix.idf_table()).unwrap();
    assert!(empty.is_empty());
    assert_eq!(empty.token_total(), 0);
}

#[test]
fn oversized_catalogs_are_rejected_at_startup() {
    let mut c = Catalog::new();
    for i in 0..4097 {
        c.insert(format!("question number {}", i), "a".to_string());
    }
    assert_eq!(build_index(&c).err().unwrap(), IndexError::TooManyQuestions);

    let mut c2 = Catalog::new();
    let mut long = String::new();
    for i in 0..4097 {
        long.push_str(&format!("t{} ", i));
    }
    c2.insert(long, "a".to_string());
    assert_eq!(build_index(&c2).err().unwrap(), IndexError::QuestionTooLong);
}

#[test]
fn oversized_query_gets_the_no_match_message() {
    let m = Matcher::new(thoughtful_catalog()).ok().unwrap();
    let mut long = String::new();
    for i in 0..4097 {
        long.push_str(&format!("t{} ", i));
    }
    assert_eq!(m.answer(&long), NO_MATCH);
}

#[test]
fn best_match_prefers_strictly_greater_similarity() {
    // The second question shares two informative terms with the query, the
    // first only one: the second must win and clear the threshold.
    let mut c = Catalog::new();
    c.insert("reset password".to_string(), "a1".to_string());
    c.insert("reset email address".to_string(), "a2".to_string());
    let m = Matcher::new(c).ok().unwrap();
    assert_eq!(m.answer("email address"), "a2");
}
