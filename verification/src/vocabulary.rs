use vstd::prelude::*;
use vstd::hash_map::StringHashMap;
use crate::model::{
    cell_count, is_count_row, is_first_position, known_tokens, row_sum, term_lists,
    terms, Term,
};
use crate::counts::{vocabulary_of, word_counts};
use crate::preprocess::{tokenize, whitespace_split};
use crate::structs::PreprocessedReview;

verus! {

/// Whether `lookup` sends exactly the terms of `dictionary` each to the first
/// position at which it stands.
pub open spec fn indexes(lookup: Map<Term, usize>, dictionary: Seq<Term>) -> bool {
    &&& forall|t: Term| #[trigger] lookup.contains_key(t) <==> dictionary.contains(t)
    &&& forall|t: Term| #[trigger]
        lookup.contains_key(t) ==> {
            &&& lookup[t] < dictionary.len()
            &&& dictionary[lookup[t] as int] == t
            &&& is_first_position(dictionary, lookup[t] as int)
        }
}

/// Whether `t` occurs in one of the documents.
pub open spec fn appears(documents: Seq<Seq<Term>>, t: Term) -> bool {
    exists|i: int| 0 <= i < documents.len() && (#[trigger] documents[i]).contains(t)
}

/// The documents that a run over at most `num_rows` reviews reads: the
/// whitespace-separated terms of each of the first reviews, in order.
pub open spec fn documents_of(reviews: Seq<PreprocessedReview>, num_rows: int) -> Seq<Seq<Term>> {
    Seq::new(
        if num_rows < reviews.len() { num_rows as nat } else { reviews.len() },
        |i: int| whitespace_split(reviews[i].review_text@),
    )
}

/// Adding a term that a dictionary does not hold at its end keeps the lookup
/// map in step with the dictionary.
pub proof fn lemma_indexes_push(lookup: Map<Term, usize>, dictionary: Seq<Term>, t: Term)
    requires
        indexes(lookup, dictionary),
        !dictionary.contains(t),
        dictionary.len() <= usize::MAX,
    ensures
        indexes(lookup.insert(t, dictionary.len() as usize), dictionary.push(t)),
{
    let longer = dictionary.push(t);
    let after = lookup.insert(t, dictionary.len() as usize);
    assert forall|x: Term| #[trigger] after.contains_key(x) <==> longer.contains(x) by {
        vstd::seq_lib::lemma_seq_contains_after_push(dictionary, t, x);
    }
    assert forall|x: Term| #[trigger] after.contains_key(x) implies {
        &&& after[x] < longer.len()
        &&& longer[after[x] as int] == x
        &&& is_first_position(longer, after[x] as int)
    } by {
        if x == t {
            assert forall|i: int| 0 <= i < dictionary.len() implies longer[i] != t by {
                assert(dictionary[i] == longer[i]);
            }
        } else {
            assert(lookup.contains_key(x));
            let j = lookup[x] as int;
            assert(dictionary[j] == longer[j]);
            assert forall|i: int| 0 <= i < j implies longer[i] != longer[j] by {
                assert(dictionary[i] == longer[i]);
            }
        }
    }
}

/// Adding a term that a dictionary holds already at its end leaves the
/// lookup map in step with the dictionary.
pub proof fn lemma_indexes_repeat(lookup: Map<Term, usize>, dictionary: Seq<Term>, t: Term)
    requires
        indexes(lookup, dictionary),
        dictionary.contains(t),
    ensures
        indexes(lookup, dictionary.push(t)),
{
    let longer = dictionary.push(t);
    assert forall|x: Term| #[trigger] lookup.contains_key(x) <==> longer.contains(x) by {
        vstd::seq_lib::lemma_seq_contains_after_push(dictionary, t, x);
    }
    assert forall|x: Term| #[trigger] lookup.contains_key(x) implies {
        &&& lookup[x] < longer.len()
        &&& longer[lookup[x] as int] == x
        &&& is_first_position(longer, lookup[x] as int)
    } by {
        let j = lookup[x] as int;
        assert(dictionary[j] == longer[j]);
        assert forall|i: int| 0 <= i < j implies longer[i] != longer[j] by {
            assert(dictionary[i] == longer[i]);
        }
    }
}

/// A dictionary together with a map from each term to its column, so that a
/// term is resolved without scanning the dictionary.
pub struct Vocabulary {
    words: Vec<String>,
    lookup: StringHashMap<usize>,
}

impl Vocabulary {
    /// The dictionary in column order.
    pub closed spec fn dictionary(&self) -> Seq<Term> {
        terms(self.words@)
    }

    /// The lookup map agrees with the dictionary.
    pub closed spec fn wf(&self) -> bool {
        indexes(self.lookup@, terms(self.words@))
    }

    /// Builds the lookup map for a dictionary. The dictionary is kept as it
    /// is; a term that stands twice is resolved to its first column.
    pub fn from_terms(dictionary: Vec<String>) -> (out: Vocabulary)
        ensures
            out.wf(),
            out.dictionary() == terms(dictionary@),
    {
        let mut lookup: StringHashMap<usize> = StringHashMap::new();
        let ghost d = terms(dictionary@);
        let n: usize = dictionary.len();
        let mut i: usize = 0;
        proof {
            assert(indexes(lookup@, d.take(0)));
        }
        while i < n
            invariant
                n == dictionary@.len(),
                i <= n,
                d == terms(dictionary@),
                indexes(lookup@, d.take(i as int)),
            decreases n - i,
        {
            proof {
                assert(d.take(i + 1) =~= d.take(i as int).push(d[i as int]));
            }
            if !lookup.contains_key(dictionary[i].as_str()) {
                proof {
                    lemma_indexes_push(lookup@, d.take(i as int), d[i as int]);
                }
                lookup.insert(dictionary[i].clone(), i);
            } else {
                proof {
                    lemma_indexes_repeat(lookup@, d.take(i as int), d[i as int]);
                }
            }
            i = i + 1;
        }
        proof {
            assert(d.take(n as int) =~= d);
        }
        Vocabulary { words: dictionary, lookup }
    }

    /// The number of columns.
    pub fn len(&self) -> (n: usize)
        ensures
            n == self.dictionary().len(),
    {
        self.words.len()
    }

    /// The dictionary in column order.
    pub fn words(&self) -> (out: &Vec<String>)
        ensures
            terms(out@) == self.dictionary(),
    {
        &self.words
    }

    /// Gives the dictionary back.
    pub fn into_words(self) -> (out: Vec<String>)
        ensures
            terms(out@) == self.dictionary(),
    {
        self.words
    }

    /// The column of a term: the first position at which the dictionary
    /// holds it, or `None` where the dictionary does not hold it.
    pub fn position(&self, term: &str) -> (out: Option<usize>)
        requires
            self.wf(),
        ensures
            match out {
                Some(j) => {
                    &&& j < self.dictionary().len()
                    &&& self.dictionary()[j as int] == term@
                    &&& is_first_position(self.dictionary(), j as int)
                },
                None => !self.dictionary().contains(term@),
            },
    {
        match self.lookup.get(term) {
            Some(j) => Some(*j),
            None => None,
        }
    }
}

/// Where the dictionary holds every token, all of them are known.
pub proof fn lemma_all_tokens_known(dictionary: Seq<Term>, tokens: Seq<Term>)
    requires
        forall|k: int| 0 <= k < tokens.len() ==> dictionary.contains(#[trigger] tokens[k]),
    ensures
        known_tokens(dictionary, tokens) == tokens.len(),
    decreases tokens.len(),
{
    if tokens.len() > 0 {
        assert forall|k: int| 0 <= k < tokens.drop_last().len() implies dictionary.contains(
            #[trigger] tokens.drop_last()[k],
        ) by {
            assert(tokens.drop_last()[k] == tokens[k]);
        }
        lemma_all_tokens_known(dictionary, tokens.drop_last());
        assert(dictionary.contains(tokens[tokens.len() - 1]));
    }
}

/// Replacing one entry of a row changes the sum by the difference.
pub proof fn lemma_row_sum_update(row: Seq<u64>, j: int, v: u64)
    requires
        0 <= j < row.len(),
    ensures
        row_sum(row.update(j, v)) == row_sum(row) - row[j] + v,
    decreases row.len(),
{
    if j == row.len() - 1 {
        assert(row.update(j, v).drop_last() =~= row.drop_last());
    } else {
        assert(row.update(j, v).drop_last() =~= row.drop_last().update(j, v));
        lemma_row_sum_update(row.drop_last(), j, v);
    }
}

/// A row of `n` zeros.
pub fn zero_row(n: usize) -> (row: Vec<u64>)
    ensures
        row@.len() == n,
        forall|j: int| 0 <= j < n ==> row@[j] == 0,
        row_sum(row@) == 0,
{
    let mut row: Vec<u64> = Vec::new();
    let mut j: usize = 0;
    while j < n
        invariant
            j <= n,
            row@.len() == j,
            forall|k: int| 0 <= k < j ==> row@[k] == 0,
            row_sum(row@) == 0,
        decreases n - j,
    {
        proof {
            assert(row@.push(0u64).drop_last() =~= row@);
        }
        row.push(0u64);
        j = j + 1;
    }
    row
}

/// Counts the terms of one document over the vocabulary. Column `j` holds the
/// occurrences of the `j`-th term; a term that the vocabulary does not hold
/// adds to no column, so the row sums to the number of tokens that the
/// vocabulary holds.
pub fn review_vector(vocabulary: &Vocabulary, tokens: &Vec<String>) -> (row: Vec<u64>)
    requires
        vocabulary.wf(),
    ensures
        is_count_row(vocabulary.dictionary(), terms(tokens@), row@),
        row_sum(row@) == known_tokens(vocabulary.dictionary(), terms(tokens@)),
{
    let ghost d = vocabulary.dictionary();
    let ghost toks = terms(tokens@);
    let width: usize = vocabulary.len();
    let mut row = zero_row(width);
    let n: usize = tokens.len();
    let mut k: usize = 0;
    while k < n
        invariant
            vocabulary.wf(),
            d == vocabulary.dictionary(),
            toks == terms(tokens@),
            n == tokens@.len(),
            k <= n,
            row@.len() == d.len(),
            forall|j: int| 0 <= j < row@.len() ==> row@[j] <= k,
            forall|j: int|
                0 <= j < row@.len() ==> row@[j] as nat == #[trigger] cell_count(
                    d,
                    toks.take(k as int),
                    j,
                ),
            row_sum(row@) == known_tokens(d, toks.take(k as int)),
        decreases n - k,
    {
        let ghost before = row@;
        let ghost t = toks[k as int];
        proof {
            assert(toks.take(k + 1).drop_last() =~= toks.take(k as int));
            assert(toks.take(k + 1).last() == t);
        }
        match vocabulary.position(tokens[k].as_str()) {
            Some(hit) => {
                let count: u64 = row[hit];
                assert(count <= k);
                row.set(hit, count + 1);
                proof {
                    lemma_row_sum_update(before, hit as int, (count + 1) as u64);
                    assert(d.contains(t));
                    assert forall|j: int| 0 <= j < row@.len() implies row@[j] as nat
                        == #[trigger] cell_count(d, toks.take(k + 1), j) by {
                        assert(before[j] as nat == cell_count(d, toks.take(k as int), j));
                        if j != hit && is_first_position(d, j) {
                            assert(d[j] != t);
                        }
                    }
                }
            },
            None => {
                proof {
                    assert forall|j: int| 0 <= j < row@.len() implies row@[j] as nat
                        == #[trigger] cell_count(d, toks.take(k + 1), j) by {
                        assert(before[j] as nat == cell_count(d, toks.take(k as int), j));
                        assert(d[j] != t);
                    }
                }
            },
        }
        k = k + 1;
    }
    proof {
        assert(toks.take(n as int) =~= toks);
    }
    row
}

/// Counts the terms of every document over the vocabulary: one row for each
/// document, in the order of the documents.
pub fn document_term_matrix(vocabulary: &Vocabulary, documents: &Vec<Vec<String>>) -> (matrix: Vec<
    Vec<u64>,
>)
    requires
        vocabulary.wf(),
    ensures
        matrix@.len() == documents@.len(),
        forall|i: int|
            0 <= i < matrix@.len() ==> {
                &&& is_count_row(
                    vocabulary.dictionary(),
                    terms(documents@[i]@),
                    (#[trigger] matrix@[i])@,
                )
                &&& row_sum(matrix@[i]@) == known_tokens(
                    vocabulary.dictionary(),
                    terms(documents@[i]@),
                )
            },
{
    let mut matrix: Vec<Vec<u64>> = Vec::new();
    let n: usize = documents.len();
    let mut i: usize = 0;
    while i < n
        invariant
            vocabulary.wf(),
            n == documents@.len(),
            i <= n,
            matrix@.len() == i,
            forall|r: int|
                0 <= r < i ==> {
                    &&& is_count_row(
                        vocabulary.dictionary(),
                        terms(documents@[r]@),
                        (#[trigger] matrix@[r])@,
                    )
                    &&& row_sum(matrix@[r]@) == known_tokens(
                        vocabulary.dictionary(),
                        terms(documents@[r]@),
                    )
                },
        decreases n - i,
    {
        matrix.push(review_vector(vocabulary, &documents[i]));
        i = i + 1;
    }
    matrix
}

/// Gathers the distinct terms of the documents: the terms of their merged
/// counts. Every term that occurs in a document stands exactly once in the
/// result, and nothing else does; the terms stand in the order in which they
/// first occur.
pub fn collect_vocabulary(documents: &Vec<Vec<String>>) -> (out: Vec<String>)
    ensures
        terms(out@).no_duplicates(),
        forall|t: Term| terms(out@).contains(t) <==> appears(term_lists(documents@), t),
        terms(out@) == vocabulary_of(term_lists(documents@)),
{
    word_counts(documents).into_words()
}

/// Cuts the text of each of the first `num_rows` reviews into its terms.
pub fn tokenize_reviews(reviews: &Vec<PreprocessedReview>, num_rows: usize) -> (out: Vec<
    Vec<String>,
>)
    ensures
        term_lists(out@) == documents_of(reviews@, num_rows as int),
{
    let n: usize = if num_rows < reviews.len() { num_rows } else { reviews.len() };
    let mut out: Vec<Vec<String>> = Vec::new();
    let mut i: usize = 0;
    while i < n
        invariant
            n <= reviews@.len(),
            i <= n,
            out@.len() == i,
            forall|r: int|
                0 <= r < i ==> terms((#[trigger] out@[r])@) == whitespace_split(
                    reviews@[r].review_text@,
                ),
        decreases n - i,
    {
        out.push(tokenize(reviews[i].review_text.as_str()));
        i = i + 1;
    }
    proof {
        assert(term_lists(out@) =~= documents_of(reviews@, num_rows as int));
    }
    out
}

/// Builds the dictionary of the first `num_rows` reviews and their
/// document-term matrix. The dictionary holds each term of those reviews
/// exactly once; row `i` of the matrix counts the terms of review `i`.
pub fn bag_of_words(reviews: &Vec<PreprocessedReview>, num_rows: usize) -> (out: (
    Vec<String>,
    Vec<Vec<u64>>,
))
    ensures
        terms(out.0@).no_duplicates(),
        forall|t: Term|
            terms(out.0@).contains(t) <==> appears(documents_of(reviews@, num_rows as int), t),
        terms(out.0@) == vocabulary_of(documents_of(reviews@, num_rows as int)),
        out.1@.len() == documents_of(reviews@, num_rows as int).len(),
        forall|i: int|
            0 <= i < out.1@.len() ==> {
                &&& is_count_row(
                    terms(out.0@),
                    documents_of(reviews@, num_rows as int)[i],
                    (#[trigger] out.1@[i])@,
                )
                &&& row_sum(out.1@[i]@) == documents_of(reviews@, num_rows as int)[i].len()
            },
{
    let documents = tokenize_reviews(reviews, num_rows);
    let dictionary = collect_vocabulary(&documents);
    let vocabulary = Vocabulary::from_terms(dictionary);
    let matrix = document_term_matrix(&vocabulary, &documents);
    proof {
        let docs = documents_of(reviews@, num_rows as int);
        assert(term_lists(documents@).len() == documents@.len());
        assert forall|i: int| 0 <= i < matrix@.len() implies terms(documents@[i]@) == docs[i]
            && known_tokens(vocabulary.dictionary(), docs[i]) == docs[i].len() by {
            assert(term_lists(documents@)[i] == docs[i]);
            assert forall|k: int| 0 <= k < docs[i].len() implies vocabulary.dictionary().contains(
                #[trigger] docs[i][k],
            ) by {
                assert(docs[i].contains(docs[i][k]));
                assert(appears(docs, docs[i][k]));
            }
            lemma_all_tokens_known(vocabulary.dictionary(), docs[i]);
        }
    }
    (vocabulary.into_words(), matrix)
}

/// Counts the terms of every review over a given vocabulary: one row for
/// each review, in the order of the reviews.
pub fn review_vectors(vocabulary: &Vocabulary, reviews: &Vec<PreprocessedReview>) -> (matrix: Vec<
    Vec<u64>,
>)
    requires
        vocabulary.wf(),
    ensures
        matrix@.len() == reviews@.len(),
        forall|i: int|
            0 <= i < matrix@.len() ==> {
                &&& is_count_row(
                    vocabulary.dictionary(),
                    whitespace_split(reviews@[i].review_text@),
                    (#[trigger] matrix@[i])@,
                )
                &&& row_sum(matrix@[i]@) == known_tokens(
                    vocabulary.dictionary(),
                    whitespace_split(reviews@[i].review_text@),
                )
            },
{
    let documents = tokenize_reviews(reviews, reviews.len());
    let matrix = document_term_matrix(vocabulary, &documents);
    proof {
        let docs = documents_of(reviews@, reviews@.len() as int);
        assert(term_lists(documents@).len() == documents@.len());
        assert(docs.len() == reviews@.len());
        assert forall|i: int| 0 <= i < matrix@.len() implies terms(documents@[i]@)
            == whitespace_split(reviews@[i].review_text@) by {
            assert(term_lists(documents@)[i] == docs[i]);
        }
    }
    matrix
}

} // verus!
