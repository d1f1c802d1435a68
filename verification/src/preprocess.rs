use vstd::prelude::*;
use vstd::hash_set::StringHashSet;
use vstd::string::*;
use crate::model::{terms, Term};
use crate::structs::{PreprocessedReview, Review};

verus! {

/// Whether `c` is an ASCII punctuation character: one of
/// `! " # $ % & ' ( ) * + , - . /`, `: ; < = > ? @`, `[ \ ] ^ _ `` ` and `{ | } ~`.
pub open spec fn is_punctuation(c: char) -> bool {
    let u = c as u32;
    (0x21 <= u <= 0x2F) || (0x3A <= u <= 0x40) || (0x5B <= u <= 0x60) || (0x7B <= u <= 0x7E)
}

/// Tells whether a character is ASCII punctuation.
pub fn is_ascii_punctuation(c: char) -> (b: bool)
    ensures
        b == is_punctuation(c),
{
    let u: u32 = c as u32;
    (0x21 <= u && u <= 0x2F) || (0x3A <= u && u <= 0x40) || (0x5B <= u && u <= 0x60) || (0x7B <= u
        && u <= 0x7E)
}

/// `String::push`: the string grows by the one character at its end.
#[verifier::external_body]
pub(crate) fn push_char(s: &mut String, c: char)
    ensures
        final(s)@ == old(s)@.push(c),
{
    s.push(c)
}

/// The text without its ASCII punctuation characters.
pub open spec fn without_punctuation(text: Seq<char>) -> Seq<char> {
    text.filter(|c: char| !is_punctuation(c))
}

/// Removes every ASCII punctuation character and keeps the others in order.
pub fn remove_punctuation(text: &str) -> (out: String)
    ensures
        out@ == without_punctuation(text@),
{
    broadcast use group_string_axioms;
    let mut out = String::new();
    let ghost keep = |c: char| !is_punctuation(c);
    proof {
        reveal(Seq::filter);
        assert(text@.take(0).filter(keep) =~= Seq::<char>::empty());
    }
    for c in it: text.chars()
        invariant
            it.seq() == text@,
            keep == (|c: char| !is_punctuation(c)),
            out@ == text@.take(it.index() as int).filter(keep),
    {
        proof {
            reveal(Seq::filter);
            let k = it.index() as int;
            assert(text@.take(k + 1).drop_last() =~= text@.take(k));
        }
        if !is_ascii_punctuation(c) {
            push_char(&mut out, c);
        }
    }
    proof {
        assert(text@.take(text@.len() as int) =~= text@);
    }
    out
}

/// The lower-case form that `str::to_lowercase` gives to a text.
pub uninterp spec fn lowercase_of(text: Seq<char>) -> Seq<char>;

/// `str::to_lowercase`: the result is the lower-case form of the text, which
/// depends on the text alone.
#[verifier::external_body]
fn lowercase_string(text: &str) -> (out: String)
    ensures
        out@ == lowercase_of(text@),
{
    text.to_lowercase()
}

/// Turns every character into its lower-case form.
pub fn to_lowercase(text: &str) -> (out: String)
    ensures
        out@ == lowercase_of(text@),
{
    lowercase_string(text)
}

/// Whether `c` is a whitespace character: one of the code points with the
/// Unicode property `White_Space`.
pub open spec fn is_space(c: char) -> bool {
    let u = c as u32;
    (0x09 <= u <= 0x0D) || u == 0x20 || u == 0x85 || u == 0xA0 || u == 0x1680 || (0x2000 <= u
        <= 0x200A) || u == 0x2028 || u == 0x2029 || u == 0x202F || u == 0x205F || u == 0x3000
}

/// Tells whether a character is whitespace.
pub fn is_whitespace(c: char) -> (b: bool)
    ensures
        b == is_space(c),
{
    let u: u32 = c as u32;
    (0x09 <= u && u <= 0x0D) || u == 0x20 || u == 0x85 || u == 0xA0 || u == 0x1680 || (0x2000 <= u
        && u <= 0x200A) || u == 0x2028 || u == 0x2029 || u == 0x202F || u == 0x205F || u
        == 0x3000
}

/// The piece that is still open at the end of a text: its longest ending
/// without whitespace.
pub open spec fn open_piece(text: Seq<char>) -> Seq<char>
    decreases text.len(),
{
    if text.len() == 0 || is_space(text.last()) {
        Seq::empty()
    } else {
        open_piece(text.drop_last()).push(text.last())
    }
}

/// The pieces of a text that a whitespace character has closed, in order.
pub open spec fn closed_pieces(text: Seq<char>) -> Seq<Seq<char>>
    decreases text.len(),
{
    if text.len() == 0 {
        Seq::empty()
    } else if is_space(text.last()) && open_piece(text.drop_last()).len() > 0 {
        closed_pieces(text.drop_last()).push(open_piece(text.drop_last()))
    } else {
        closed_pieces(text.drop_last())
    }
}

/// The pieces that whitespace cuts a text into, in order: its longest runs
/// of characters that are not whitespace.
pub open spec fn whitespace_split(text: Seq<char>) -> Seq<Seq<char>> {
    if open_piece(text).len() > 0 {
        closed_pieces(text).push(open_piece(text))
    } else {
        closed_pieces(text)
    }
}

/// Every piece holds a character and no whitespace, and a text has no more
/// pieces than characters.
pub proof fn lemma_pieces(text: Seq<char>)
    ensures
        forall|i: int|
            0 <= i < whitespace_split(text).len() ==> {
                &&& (#[trigger] whitespace_split(text)[i]).len() > 0
                &&& forall|k: int|
                    0 <= k < whitespace_split(text)[i].len() ==> !is_space(
                        #[trigger] whitespace_split(text)[i][k],
                    )
            },
        whitespace_split(text).len() <= text.len(),
{
    lemma_open_piece(text);
    lemma_closed_pieces(text);
}

/// The open piece holds no whitespace and is no longer than the text.
pub proof fn lemma_open_piece(text: Seq<char>)
    ensures
        forall|k: int| 0 <= k < open_piece(text).len() ==> !is_space(#[trigger] open_piece(text)[k]),
        open_piece(text).len() <= text.len(),
    decreases text.len(),
{
    if text.len() > 0 && !is_space(text.last()) {
        lemma_open_piece(text.drop_last());
    }
}

/// Every closed piece holds a character and no whitespace; counting the
/// open piece as one, there are no more pieces than characters.
pub proof fn lemma_closed_pieces(text: Seq<char>)
    ensures
        forall|i: int|
            0 <= i < closed_pieces(text).len() ==> {
                &&& (#[trigger] closed_pieces(text)[i]).len() > 0
                &&& forall|k: int|
                    0 <= k < closed_pieces(text)[i].len() ==> !is_space(
                        #[trigger] closed_pieces(text)[i][k],
                    )
            },
        closed_pieces(text).len() + (if open_piece(text).len() > 0 { 1int } else { 0int })
            <= text.len(),
    decreases text.len(),
{
    if text.len() > 0 {
        lemma_closed_pieces(text.drop_last());
        lemma_open_piece(text.drop_last());
    }
}

/// Cuts a text into its whitespace-separated terms.
pub fn tokenize(text: &str) -> (out: Vec<String>)
    ensures
        terms(out@) == whitespace_split(text@),
{
    broadcast use group_string_axioms;
    let mut out: Vec<String> = Vec::new();
    let mut current = String::new();
    let mut open: bool = false;
    proof {
        assert(terms(out@) =~= closed_pieces(text@.take(0)));
    }
    for c in it: text.chars()
        invariant
            it.seq() == text@,
            terms(out@) == closed_pieces(text@.take(it.index() as int)),
            current@ == open_piece(text@.take(it.index() as int)),
            open == (current@.len() > 0),
    {
        let ghost k = it.index() as int;
        let ghost held = terms(out@);
        proof {
            assert(text@.take(k + 1).drop_last() =~= text@.take(k));
            assert(text@.take(k + 1).last() == c);
        }
        if is_whitespace(c) {
            if open {
                let ghost piece = current@;
                out.push(current);
                current = String::new();
                open = false;
                proof {
                    assert(terms(out@) =~= held.push(piece));
                }
            }
        } else {
            push_char(&mut current, c);
            open = true;
        }
    }
    proof {
        assert(text@.take(text@.len() as int) =~= text@);
    }
    if open {
        let ghost held = terms(out@);
        let ghost piece = current@;
        out.push(current);
        proof {
            assert(terms(out@) =~= held.push(piece));
        }
    }
    out
}

/// Collects stop words into a set.
pub fn stopword_set(words: &Vec<String>) -> (set: StringHashSet)
    ensures
        set@ == terms(words@).to_set(),
{
    let mut set = StringHashSet::new();
    let n: usize = words.len();
    let mut i: usize = 0;
    while i < n
        invariant
            n == words@.len(),
            i <= n,
            set@ == terms(words@).take(i as int).to_set(),
        decreases n - i,
    {
        let word = words[i].clone();
        proof {
            let all = terms(words@);
            assert(all.take(i + 1) =~= all.take(i as int).push(word@));
            let shorter = all.take(i as int);
            let longer = all.take(i + 1);
            assert forall|t: Seq<char>|
                longer.contains(t) <==> (shorter.contains(t) || t == word@) by {
                vstd::seq_lib::lemma_seq_contains_after_push(shorter, word@, t);
            }
            assert(longer.to_set() =~= shorter.to_set().insert(word@));
        }
        set.insert(word);
        i = i + 1;
    }
    proof {
        assert(terms(words@).take(n as int) =~= terms(words@));
    }
    set
}

/// The terms of `tokens` that are not in `stopwords`, in order.
pub open spec fn without_stopwords(tokens: Seq<Term>, stopwords: Set<Term>) -> Seq<Term> {
    tokens.filter(|t: Term| !stopwords.contains(t))
}

/// Drops the stop words and keeps the other terms in order.
pub fn remove_stopwords(tokens: &[String], stopwords: &StringHashSet) -> (out: Vec<String>)
    ensures
        terms(out@) == without_stopwords(terms(tokens@), stopwords@),
{
    let mut out: Vec<String> = Vec::new();
    let ghost all = terms(tokens@);
    let ghost keep = |t: Term| !stopwords@.contains(t);
    let n: usize = tokens.len();
    let mut i: usize = 0;
    proof {
        reveal(Seq::filter);
        assert(terms(out@) =~= all.take(0).filter(keep));
    }
    while i < n
        invariant
            n == tokens@.len(),
            i <= n,
            all == terms(tokens@),
            keep == (|t: Term| !stopwords@.contains(t)),
            terms(out@) == all.take(i as int).filter(keep),
        decreases n - i,
    {
        let ghost before = terms(out@);
        proof {
            reveal(Seq::filter);
            assert(all.take(i + 1).drop_last() =~= all.take(i as int));
        }
        if !stopwords.contains(tokens[i].as_str()) {
            out.push(tokens[i].clone());
            proof {
                assert(terms(out@) =~= before.push(all[i as int]));
            }
        }
        i = i + 1;
    }
    proof {
        assert(all.take(n as int) =~= all);
    }
    out
}

/// The stem that the English Snowball stemmer gives to a term.
pub uninterp spec fn english_stem(term: Seq<char>) -> Seq<char>;

/// `rust_stemmers::Stemmer::stem` of the English algorithm: the stem depends
/// on the term alone.
#[verifier::external_body]
fn english_stem_of(term: &str) -> (out: String)
    ensures
        out@ == english_stem(term@),
{
    let stemmer = rust_stemmers::Stemmer::create(rust_stemmers::Algorithm::English);
    stemmer.stem(term).to_string()
}

/// Replaces every term by its English stem, position by position.
pub fn stem(tokens: &[String]) -> (out: Vec<String>)
    ensures
        out@.len() == tokens@.len(),
        forall|i: int| 0 <= i < out@.len() ==> (#[trigger] out@[i])@ == english_stem(tokens@[i]@),
{
    let mut out: Vec<String> = Vec::new();
    let n: usize = tokens.len();
    let mut i: usize = 0;
    while i < n
        invariant
            n == tokens@.len(),
            i <= n,
            out@.len() == i,
            forall|k: int| 0 <= k < i ==> (#[trigger] out@[k])@ == english_stem(tokens@[k]@),
        decreases n - i,
    {
        out.push(english_stem_of(tokens[i].as_str()));
        i = i + 1;
    }
    out
}

/// The terms written one after another with a single space between
/// neighbours.
pub open spec fn joined(tokens: Seq<Term>) -> Seq<char>
    decreases tokens.len(),
{
    if tokens.len() == 0 {
        Seq::empty()
    } else if tokens.len() == 1 {
        tokens[0]
    } else {
        joined(tokens.drop_last()).push(' ') + tokens.last()
    }
}

/// Joins terms with single spaces.
pub fn join_terms(tokens: &Vec<String>) -> (out: String)
    ensures
        out@ == joined(terms(tokens@)),
{
    let mut out = String::new();
    let ghost all = terms(tokens@);
    let n: usize = tokens.len();
    let mut i: usize = 0;
    while i < n
        invariant
            n == tokens@.len(),
            i <= n,
            all == terms(tokens@),
            out@ == joined(all.take(i as int)),
        decreases n - i,
    {
        let ghost before = out@;
        proof {
            assert(all.take(i + 1).drop_last() =~= all.take(i as int));
        }
        if i > 0 {
            push_char(&mut out, ' ');
            out.append(tokens[i].as_str());
        } else {
            out.append(tokens[i].as_str());
            proof {
                assert(out@ =~= all[0]);
            }
        }
        i = i + 1;
    }
    proof {
        assert(all.take(n as int) =~= all);
    }
    out
}

/// The cleaned text of a review: punctuation removed, lower-cased, cut into
/// terms, stop words dropped, and the rest joined by single spaces.
pub open spec fn cleaned_text(text: Seq<char>, stopwords: Set<Term>) -> Seq<char> {
    joined(
        without_stopwords(whitespace_split(lowercase_of(without_punctuation(text))), stopwords),
    )
}

/// Cleans one review and keeps its rating.
pub fn preprocess_review(review: &Review, stopwords: &StringHashSet) -> (out: PreprocessedReview)
    ensures
        out.review_stars == review.review_stars,
        out.review_text@ == cleaned_text(review.review_text@, stopwords@),
{
    let cleaned = remove_punctuation(review.review_text.as_str());
    let lowered = to_lowercase(cleaned.as_str());
    let tokens = tokenize(lowered.as_str());
    let kept = remove_stopwords(tokens.as_slice(), stopwords);
    PreprocessedReview { review_text: join_terms(&kept), review_stars: review.review_stars }
}

/// Cleans every review against the given stop words. The output has one
/// entry per review, in the order of the input.
pub fn preprocess(reviews: &Vec<Review>, stopwords: &Vec<String>) -> (out: Vec<PreprocessedReview>)
    ensures
        out@.len() == reviews@.len(),
        forall|i: int|
            0 <= i < out@.len() ==> {
                &&& (#[trigger] out@[i]).review_stars == reviews@[i].review_stars
                &&& out@[i].review_text@ == cleaned_text(
                    reviews@[i].review_text@,
                    terms(stopwords@).to_set(),
                )
            },
{
    let set = stopword_set(stopwords);
    let mut out: Vec<PreprocessedReview> = Vec::new();
    let n: usize = reviews.len();
    let mut i: usize = 0;
    while i < n
        invariant
            n == reviews@.len(),
            i <= n,
            out@.len() == i,
            set@ == terms(stopwords@).to_set(),
            forall|k: int|
                0 <= k < i ==> {
                    &&& (#[trigger] out@[k]).review_stars == reviews@[k].review_stars
                    &&& out@[k].review_text@ == cleaned_text(reviews@[k].review_text@, set@)
                },
        decreases n - i,
    {
        out.push(preprocess_review(&reviews[i], &set));
        i = i + 1;
    }
    out
}

} // verus!
