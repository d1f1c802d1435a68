use vstd::prelude::*;
use vstd::hash_map::StringHashMap;
use vstd::string::*;
use crate::model::{occurrences, term_lists, terms, Term};
use crate::vocabulary::{appears, indexes, lemma_indexes_push};

verus! {

/// How often `t` occurs in all the documents together.
pub open spec fn total_occurrences(documents: Seq<Seq<Term>>, t: Term) -> nat
    decreases documents.len(),
{
    if documents.len() == 0 {
        0
    } else {
        total_occurrences(documents.drop_last(), t) + occurrences(documents.last(), t)
    }
}

/// The terms of `base`, and behind them those of `more` that are new, each
/// once, in the order in which they first stand in `more`.
pub open spec fn extend_distinct(base: Seq<Term>, more: Seq<Term>) -> Seq<Term>
    decreases more.len(),
{
    if more.len() == 0 {
        base
    } else {
        let held = extend_distinct(base, more.drop_last());
        if held.contains(more.last()) {
            held
        } else {
            held.push(more.last())
        }
    }
}

/// The distinct terms of a document, in the order in which they first occur.
pub open spec fn distinct_terms(tokens: Seq<Term>) -> Seq<Term> {
    extend_distinct(Seq::empty(), tokens)
}

/// The distinct terms of the documents, in the order in which they first
/// occur, document by document.
pub open spec fn vocabulary_of(documents: Seq<Seq<Term>>) -> Seq<Term>
    decreases documents.len(),
{
    if documents.len() == 0 {
        Seq::empty()
    } else {
        extend_distinct(vocabulary_of(documents.drop_last()), distinct_terms(documents.last()))
    }
}

/// The sum of two counts of terms: term by term.
pub open spec fn merged(a: spec_fn(Term) -> nat, b: spec_fn(Term) -> nat) -> spec_fn(Term) -> nat {
    |t: Term| a(t) + b(t)
}

/// Merging counts does not depend on the order of the two parts.
pub proof fn lemma_merge_commutes(a: spec_fn(Term) -> nat, b: spec_fn(Term) -> nat)
    ensures
        forall|t: Term| #[trigger] merged(a, b)(t) == merged(b, a)(t),
{
}

/// Merging counts does not depend on how the parts are grouped.
pub proof fn lemma_merge_associates(
    a: spec_fn(Term) -> nat,
    b: spec_fn(Term) -> nat,
    c: spec_fn(Term) -> nat,
)
    ensures
        forall|t: Term| #[trigger] merged(merged(a, b), c)(t) == merged(a, merged(b, c))(t),
{
}

/// A term occurs at most as often as there are tokens.
pub proof fn lemma_occurrences_bound(tokens: Seq<Term>, t: Term)
    ensures
        occurrences(tokens, t) <= tokens.len(),
    decreases tokens.len(),
{
    if tokens.len() > 0 {
        lemma_occurrences_bound(tokens.drop_last(), t);
    }
}

/// A term that occurs is one of the tokens, and a token occurs.
pub proof fn lemma_occurs_iff_contained(tokens: Seq<Term>, t: Term)
    ensures
        occurrences(tokens, t) > 0 <==> tokens.contains(t),
    decreases tokens.len(),
{
    if tokens.len() > 0 {
        lemma_occurs_iff_contained(tokens.drop_last(), t);
        if tokens.contains(t) {
            let k = choose|k: int| 0 <= k < tokens.len() && tokens[k] == t;
            if k < tokens.len() - 1 {
                assert(tokens.drop_last()[k] == t);
            }
        }
        if tokens.drop_last().contains(t) {
            let k = choose|k: int| 0 <= k < tokens.drop_last().len() && tokens.drop_last()[k] == t;
            assert(tokens[k] == t);
        }
        if tokens.last() == t {
            assert(tokens[tokens.len() - 1] == t);
        }
    }
}

/// Counts of terms: each term that was added, in the order of its first
/// addition, with the sum of the amounts added for it.
pub struct TermCounts {
    words: Vec<String>,
    counts: Vec<u128>,
    lookup: StringHashMap<usize>,
}

impl TermCounts {
    /// The terms in the order of their first addition.
    pub closed spec fn dictionary(&self) -> Seq<Term> {
        terms(self.words@)
    }

    /// The count of a term; zero for a term that was never added.
    pub closed spec fn count_of(&self, t: Term) -> nat {
        if self.lookup@.contains_key(t) {
            self.counts@[self.lookup@[t] as int] as nat
        } else {
            0
        }
    }

    /// The counts as a function of the term.
    pub open spec fn counts(&self) -> spec_fn(Term) -> nat {
        |t: Term| self.count_of(t)
    }

    /// No term stands twice, each term has its count, and the lookup map
    /// agrees with the terms.
    pub closed spec fn wf(&self) -> bool {
        &&& indexes(self.lookup@, terms(self.words@))
        &&& terms(self.words@).no_duplicates()
        &&& self.counts@.len() == self.words@.len()
    }

    /// Counts of nothing.
    pub fn new() -> (out: TermCounts)
        ensures
            out.wf(),
            out.dictionary().len() == 0,
            forall|t: Term| out.count_of(t) == 0,
    {
        let out = TermCounts { words: Vec::new(), counts: Vec::new(), lookup: StringHashMap::new() };
        proof {
            assert(indexes(out.lookup@, terms(out.words@)));
        }
        out
    }

    /// Adds `amount` to the count of `term`. A term that is new is put at the
    /// end of the dictionary.
    pub fn add(&mut self, term: &str, amount: u128)
        requires
            old(self).wf(),
            old(self).count_of(term@) + amount <= u128::MAX,
        ensures
            final(self).wf(),
            forall|t: Term|
                #[trigger] final(self).count_of(t) == old(self).count_of(t) + if t == term@ {
                    amount as nat
                } else {
                    0nat
                },
            final(self).dictionary() == if old(self).dictionary().contains(term@) {
                old(self).dictionary()
            } else {
                old(self).dictionary().push(term@)
            },
    {
        let ghost d = terms(self.words@);
        let ghost before_counts = self.counts@;
        let ghost before_lookup = self.lookup@;
        let found: Option<usize> = match self.lookup.get(term) {
            Some(j) => Some(*j),
            None => None,
        };
        match found {
            Some(j) => {
                let sum: u128 = self.counts[j] + amount;
                self.counts.set(j, sum);
                proof {
                    assert(d.contains(term@));
                    assert forall|t: Term|
                        #[trigger] self.count_of(t) == (if before_lookup.contains_key(t) {
                            before_counts[before_lookup[t] as int] as nat
                        } else {
                            0nat
                        }) + if t == term@ {
                            amount as nat
                        } else {
                            0nat
                        } by {
                        if before_lookup.contains_key(t) && t != term@ {
                            assert(d[before_lookup[t] as int] == t);
                            assert(before_lookup[t] != j);
                        }
                    }
                }
            },
            None => {
                let at: usize = self.words.len();
                self.words.push(term.to_owned());
                self.counts.push(amount);
                self.lookup.insert(term.to_owned(), at);
                proof {
                    assert(!d.contains(term@));
                    assert(terms(self.words@) =~= d.push(term@));
                    lemma_indexes_push(before_lookup, d, term@);
                    assert forall|a: int, b: int|
                        0 <= a < d.push(term@).len() && 0 <= b < d.push(term@).len() && a
                            != b implies d.push(term@)[a] != d.push(term@)[b] by {
                        if a < d.len() {
                            assert(d.contains(d[a]));
                        }
                        if b < d.len() {
                            assert(d.contains(d[b]));
                        }
                    }
                    assert forall|t: Term|
                        #[trigger] self.count_of(t) == (if before_lookup.contains_key(t) {
                            before_counts[before_lookup[t] as int] as nat
                        } else {
                            0nat
                        }) + if t == term@ {
                            amount as nat
                        } else {
                            0nat
                        } by {
                        if before_lookup.contains_key(t) {
                            assert(before_lookup[t] < d.len());
                        }
                    }
                }
            },
        }
    }

    /// The number of terms.
    pub fn len(&self) -> (n: usize)
        ensures
            n == self.dictionary().len(),
    {
        self.words.len()
    }

    /// The count of a term.
    pub fn get(&self, term: &str) -> (count: u128)
        requires
            self.wf(),
        ensures
            count as nat == self.count_of(term@),
    {
        match self.lookup.get(term) {
            Some(j) => self.counts[*j],
            None => 0,
        }
    }

    /// Gives the terms out, in the order of their first addition.
    pub fn into_words(self) -> (out: Vec<String>)
        ensures
            terms(out@) == self.dictionary(),
    {
        self.words
    }

    /// Adds every count of `other` to the count of the same term here.
    pub fn merge(&mut self, other: &TermCounts)
        requires
            old(self).wf(),
            other.wf(),
            forall|t: Term| old(self).count_of(t) + other.count_of(t) <= u128::MAX,
        ensures
            final(self).wf(),
            forall|t: Term|
                #[trigger] final(self).count_of(t) == merged(old(self).counts(), other.counts())(t),
            forall|t: Term|
                #[trigger] final(self).dictionary().contains(t) <==> (old(self).dictionary().contains(
                    t,
                ) || other.dictionary().contains(t)),
            final(self).dictionary().no_duplicates(),
            final(self).dictionary() == extend_distinct(old(self).dictionary(), other.dictionary()),
    {
        let ghost start = *self;
        let ghost od = other.dictionary();
        let n: usize = other.words.len();
        let mut j: usize = 0;
        while j < n
            invariant
                self.wf(),
                other.wf(),
                start.wf(),
                od == other.dictionary(),
                n == od.len(),
                j <= n,
                forall|t: Term| start.count_of(t) + other.count_of(t) <= u128::MAX,
                forall|t: Term|
                    #[trigger] self.count_of(t) == start.count_of(t) + if od.take(j as int).contains(
                        t,
                    ) {
                        other.count_of(t)
                    } else {
                        0nat
                    },
                forall|t: Term|
                    #[trigger] self.dictionary().contains(t) <==> (start.dictionary().contains(t)
                        || od.take(j as int).contains(t)),
                self.dictionary() == extend_distinct(start.dictionary(), od.take(j as int)),
            decreases n - j,
        {
            let ghost t0 = od[j as int];
            let ghost held = self.dictionary();
            proof {
                assert(od.take(j + 1).drop_last() =~= od.take(j as int));
                assert(od.take(j + 1).last() == t0);
                assert(od.take(j + 1) =~= od.take(j as int).push(t0));
                assert forall|t: Term|
                    od.take(j + 1).contains(t) <==> (od.take(j as int).contains(t) || t == t0) by {
                    vstd::seq_lib::lemma_seq_contains_after_push(od.take(j as int), t0, t);
                }
                if od.take(j as int).contains(t0) {
                    let k = choose|k: int| 0 <= k < j && od.take(j as int)[k] == t0;
                    assert(od[k] == od[j as int]);
                }
                assert(other.lookup@.contains_key(t0)) by {
                    assert(od.contains(od[j as int]));
                }
                assert(od[other.lookup@[t0] as int] == t0);
                assert(other.lookup@[t0] == j);
                assert(self.count_of(t0) == start.count_of(t0));
                assert(start.count_of(t0) + other.count_of(t0) <= u128::MAX);
            }
            self.add(other.words[j].as_str(), other.counts[j]);
            proof {
                assert forall|t: Term|
                    #[trigger] self.dictionary().contains(t) <==> (start.dictionary().contains(t)
                        || od.take(j + 1).contains(t)) by {
                    vstd::seq_lib::lemma_seq_contains_after_push(held, t0, t);
                }
            }
            j = j + 1;
        }
        proof {
            assert(od.take(n as int) =~= od);
            assert forall|t: Term|
                #[trigger] self.count_of(t) == merged(start.counts(), other.counts())(t) by {
                if !od.contains(t) {
                    assert(!other.lookup@.contains_key(t));
                }
            }
        }
    }
}

/// Counts the terms of one document.
pub fn count_terms(tokens: &Vec<String>) -> (out: TermCounts)
    ensures
        out.wf(),
        forall|t: Term| #[trigger] out.count_of(t) == occurrences(terms(tokens@), t),
        forall|t: Term| #[trigger] out.dictionary().contains(t) <==> terms(tokens@).contains(t),
        out.dictionary().no_duplicates(),
        out.dictionary() == distinct_terms(terms(tokens@)),
{
    let mut out = TermCounts::new();
    let ghost toks = terms(tokens@);
    proof {
        assert(out.dictionary() =~= distinct_terms(toks.take(0)));
    }
    let n: usize = tokens.len();
    let mut k: usize = 0;
    while k < n
        invariant
            out.wf(),
            toks == terms(tokens@),
            n == tokens@.len(),
            k <= n,
            forall|t: Term| #[trigger] out.count_of(t) == occurrences(toks.take(k as int), t),
            forall|t: Term| #[trigger] out.dictionary().contains(t) <==> toks.take(k as int).contains(t),
            out.dictionary() == distinct_terms(toks.take(k as int)),
        decreases n - k,
    {
        let ghost held = out.dictionary();
        proof {
            assert(toks.take(k + 1).drop_last() =~= toks.take(k as int));
            assert(toks.take(k + 1).last() == toks[k as int]);
            assert(toks.take(k + 1) =~= toks.take(k as int).push(toks[k as int]));
            lemma_occurrences_bound(toks.take(k as int), toks[k as int]);
            assert(out.count_of(toks[k as int]) == occurrences(toks.take(k as int), toks[k as int]));
        }
        out.add(tokens[k].as_str(), 1);
        proof {
            assert forall|t: Term| #[trigger]
                out.dictionary().contains(t) <==> toks.take(k + 1).contains(t) by {
                vstd::seq_lib::lemma_seq_contains_after_push(held, toks[k as int], t);
                vstd::seq_lib::lemma_seq_contains_after_push(toks.take(k as int), toks[k as int], t);
            }
        }
        k = k + 1;
    }
    proof {
        assert(toks.take(n as int) =~= toks);
        out.lemma_no_duplicates();
    }
    out
}

impl TermCounts {
    /// No term stands twice in the dictionary of well-formed counts.
    pub proof fn lemma_no_duplicates(&self)
        requires
            self.wf(),
        ensures
            self.dictionary().no_duplicates(),
    {
    }
}

/// Over documents of at most `limit` tokens each, a term occurs at most
/// `limit` times the number of documents.
pub proof fn lemma_total_occurrences_bound(documents: Seq<Seq<Term>>, t: Term, limit: nat)
    requires
        forall|i: int| 0 <= i < documents.len() ==> (#[trigger] documents[i]).len() <= limit,
    ensures
        total_occurrences(documents, t) <= documents.len() * limit,
    decreases documents.len(),
{
    if documents.len() > 0 {
        let shorter = documents.drop_last();
        assert forall|i: int| 0 <= i < shorter.len() implies (#[trigger] shorter[i]).len()
            <= limit by {
            assert(shorter[i] == documents[i]);
        }
        lemma_total_occurrences_bound(shorter, t, limit);
        lemma_occurrences_bound(documents.last(), t);
        assert(documents[documents.len() - 1].len() <= limit);
        assert(shorter.len() * limit + limit == documents.len() * limit) by (nonlinear_arith)
            requires
                shorter.len() + 1 == documents.len(),
        ;
    } else {
        assert(documents.len() * limit == 0) by (nonlinear_arith)
            requires
                documents.len() == 0,
        ;
    }
}

/// Counts the terms of all documents: each document is counted by itself
/// and its counts are merged into the total. The terms stand in the order
/// in which they first occur.
pub fn word_counts(documents: &Vec<Vec<String>>) -> (out: TermCounts)
    ensures
        out.wf(),
        forall|t: Term|
            #[trigger] out.count_of(t) == total_occurrences(term_lists(documents@), t),
        forall|t: Term|
            #[trigger] out.dictionary().contains(t) <==> appears(term_lists(documents@), t),
        out.dictionary().no_duplicates(),
        out.dictionary() == vocabulary_of(term_lists(documents@)),
{
    let mut out = TermCounts::new();
    let ghost docs = term_lists(documents@);
    proof {
        assert(out.dictionary() =~= vocabulary_of(docs.take(0)));
    }
    let n: usize = documents.len();
    let mut i: usize = 0;
    proof {
        assert forall|t: Term| !appears(docs.take(0), t) by {}
    }
    while i < n
        invariant
            out.wf(),
            docs == term_lists(documents@),
            n == documents@.len(),
            i <= n,
            forall|t: Term| #[trigger] out.count_of(t) == total_occurrences(docs.take(i as int), t),
            forall|t: Term|
                #[trigger] out.dictionary().contains(t) <==> appears(docs.take(i as int), t),
            out.dictionary() == vocabulary_of(docs.take(i as int)),
        decreases n - i,
    {
        let local = count_terms(&documents[i]);
        let ghost doc = docs[i as int];
        proof {
            assert(doc == terms(documents@[i as int]@));
            assert(docs.take(i + 1).drop_last() =~= docs.take(i as int));
            assert(docs.take(i + 1).last() == doc);
            let limit = usize::MAX as nat;
            assert forall|r: int| 0 <= r < docs.take(i as int).len() implies (#[trigger] docs.take(
                i as int,
            )[r]).len() <= limit by {
                assert(docs.take(i as int)[r] == terms(documents@[r]@));
                assert(documents@[r]@.len() == documents@[r].len());
            }
            assert(doc.len() == documents@[i as int].len());
            assert forall|t: Term| out.count_of(t) + local.count_of(t) <= u128::MAX by {
                lemma_total_occurrences_bound(docs.take(i as int), t, limit);
                lemma_occurrences_bound(doc, t);
                assert(out.count_of(t) == total_occurrences(docs.take(i as int), t));
                assert(local.count_of(t) == occurrences(doc, t));
                assert(i * limit + limit <= u128::MAX) by (nonlinear_arith)
                    requires
                        0 <= i < 0xFFFF_FFFF_FFFF_FFFF,
                        limit <= 0xFFFF_FFFF_FFFF_FFFF,
                ;
            }
            assert forall|t: Term|
                appears(docs.take(i + 1), t) <==> (appears(docs.take(i as int), t) || doc.contains(
                    t,
                )) by {
                if appears(docs.take(i + 1), t) {
                    let r = choose|r: int|
                        0 <= r < docs.take(i + 1).len() && (#[trigger] docs.take(i + 1)[r]).contains(
                            t,
                        );
                    if r < i {
                        assert(docs.take(i as int)[r].contains(t));
                    }
                }
                if appears(docs.take(i as int), t) {
                    let r = choose|r: int|
                        0 <= r < docs.take(i as int).len() && (#[trigger] docs.take(
                            i as int,
                        )[r]).contains(t);
                    assert(docs.take(i + 1)[r].contains(t));
                }
                if doc.contains(t) {
                    assert(docs.take(i + 1)[i as int].contains(t));
                }
            }
        }
        let ghost before = out;
        out.merge(&local);
        proof {
            assert forall|t: Term|
                #[trigger] out.count_of(t) == total_occurrences(docs.take(i + 1), t) by {
                assert(out.count_of(t) == merged(before.counts(), local.counts())(t));
            }
            assert forall|t: Term|
                #[trigger] out.dictionary().contains(t) <==> appears(docs.take(i + 1), t) by {
                assert(local.dictionary().contains(t) <==> doc.contains(t));
            }
        }
        i = i + 1;
    }
    proof {
        assert(docs.take(n as int) =~= docs);
        out.lemma_no_duplicates();
    }
    out
}

} // verus!
