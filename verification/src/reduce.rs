use vstd::prelude::*;
use crate::model::{column_sum, is_rectangular, row_sum, terms, Term};

verus! {

/// The largest value of one count.
pub open spec fn count_limit() -> int {
    0xFFFF_FFFF_FFFF_FFFF
}

/// The score of each column: its sum over the rows of `matrix`.
pub open spec fn column_scores(matrix: Seq<Vec<u64>>, width: int) -> Seq<int> {
    Seq::new(width as nat, |j: int| column_sum(matrix, j) as int)
}

/// The scores that a vector of sums holds.
pub open spec fn scores_of(sums: Seq<u128>) -> Seq<int> {
    Seq::new(sums.len(), |j: int| sums[j] as int)
}

/// The scores that a vector of pairs holds.
pub open spec fn pair_scores(pairs: Seq<(String, u128)>) -> Seq<int> {
    Seq::new(pairs.len(), |j: int| pairs[j].1 as int)
}

/// Column `a` ranks before column `b`: its score is higher, or the scores
/// are equal and `a` stands first.
pub open spec fn ranks_before(scores: Seq<int>, a: int, b: int) -> bool {
    scores[a] > scores[b] || (scores[a] == scores[b] && a < b)
}

/// Whether `order` lists the `n` best columns of `scores`, best first: its
/// entries are columns, each ranks before the ones behind it, and each ranks
/// before every column that `order` leaves out.
pub open spec fn is_top_ranking(scores: Seq<int>, order: Seq<usize>, n: int) -> bool {
    &&& order.len() == n
    &&& forall|k: int| 0 <= k < n ==> (#[trigger] order[k]) < scores.len()
    &&& forall|a: int, b: int|
        0 <= a < b < n ==> ranks_before(scores, #[trigger] order[a] as int, #[trigger] order[b] as int)
    &&& forall|k: int, j: int|
        0 <= k < n && 0 <= j < scores.len() && !order.contains(j as usize) ==> #[trigger] ranks_before(
            scores,
            order[k] as int,
            j,
        )
}

/// A column sum never exceeds the number of rows times the largest count.
pub proof fn lemma_column_sum_bound(matrix: Seq<Vec<u64>>, j: int)
    requires
        0 <= j,
        forall|i: int| 0 <= i < matrix.len() ==> j < (#[trigger] matrix[i])@.len(),
    ensures
        column_sum(matrix, j) <= matrix.len() * count_limit(),
    decreases matrix.len(),
{
    if matrix.len() > 0 {
        let shorter = matrix.drop_last();
        assert forall|i: int| 0 <= i < shorter.len() implies j < (#[trigger] shorter[i])@.len() by {
            assert(shorter[i] == matrix[i]);
            assert(j < matrix[i]@.len());
        }
        lemma_column_sum_bound(shorter, j);
    }
}

/// Sums each column over the first `rows` rows of the matrix.
pub fn column_sums(matrix: &Vec<Vec<u64>>, width: usize, rows: usize) -> (sums: Vec<u128>)
    requires
        is_rectangular(matrix@, width as int),
        rows <= matrix@.len(),
    ensures
        sums@.len() == width,
        forall|j: int| 0 <= j < width ==> sums@[j] as nat == column_sum(matrix@.take(rows as int), j),
{
    let mut sums: Vec<u128> = Vec::new();
    let mut j: usize = 0;
    while j < width
        invariant
            is_rectangular(matrix@, width as int),
            rows <= matrix@.len(),
            j <= width,
            sums@.len() == j,
            forall|c: int| 0 <= c < j ==> sums@[c] as nat == column_sum(matrix@.take(rows as int), c),
        decreases width - j,
    {
        let mut total: u128 = 0;
        let mut i: usize = 0;
        while i < rows
            invariant
                is_rectangular(matrix@, width as int),
                rows <= matrix@.len(),
                j < width,
                i <= rows,
                total as nat == column_sum(matrix@.take(i as int), j as int),
            decreases rows - i,
        {
            proof {
                assert(matrix@.take(i + 1).drop_last() =~= matrix@.take(i as int));
                assert(matrix@.take(i + 1).last() == matrix@[i as int]);
                let prefix = matrix@.take(i as int);
                assert forall|r: int| 0 <= r < prefix.len() implies j < (#[trigger] prefix[r])@.len() by {
                    assert(prefix[r] == matrix@[r]);
                    assert(matrix@[r]@.len() == width);
                }
                lemma_column_sum_bound(matrix@.take(i as int), j as int);
                assert(i * count_limit() + count_limit() <= u128::MAX) by {
                    assert(i <= 0xFFFF_FFFF_FFFF_FFFF);
                    assert(i * count_limit() <= 0xFFFF_FFFF_FFFF_FFFF * 0xFFFF_FFFF_FFFF_FFFF)
                        by (nonlinear_arith)
                        requires
                            0 <= i <= 0xFFFF_FFFF_FFFF_FFFF,
                            count_limit() == 0xFFFF_FFFF_FFFF_FFFF,
                    ;
                }
            }
            total = total + matrix[i][j] as u128;
            i = i + 1;
        }
        sums.push(total);
        j = j + 1;
    }
    sums
}

/// Pairs each term of the dictionary with the sum of its column over the
/// first rows of the matrix: over all of them, or over the number given.
pub fn map_dictionary_to_review_vectors(
    dictionary: &Vec<String>,
    review_vectors: &Vec<Vec<u64>>,
    num_reviews_to_process: Option<usize>,
) -> (out: Vec<(String, u128)>)
    requires
        is_rectangular(review_vectors@, dictionary@.len() as int),
    ensures
        out@.len() == dictionary@.len(),
        forall|j: int|
            0 <= j < out@.len() ==> {
                &&& (#[trigger] out@[j]).0@ == dictionary@[j]@
                &&& out@[j].1 as nat == column_sum(
                    review_vectors@.take(processed_rows(review_vectors@, num_reviews_to_process)),
                    j,
                )
            },
{
    let rows: usize = match num_reviews_to_process {
        Some(limit) => if limit < review_vectors.len() { limit } else { review_vectors.len() },
        None => review_vectors.len(),
    };
    let width: usize = dictionary.len();
    let sums = column_sums(review_vectors, width, rows);
    let mut out: Vec<(String, u128)> = Vec::new();
    let mut j: usize = 0;
    while j < width
        invariant
            width == dictionary@.len(),
            sums@.len() == width,
            j <= width,
            out@.len() == j,
            forall|c: int|
                0 <= c < j ==> (#[trigger] out@[c]).0@ == dictionary@[c]@ && out@[c].1 == sums@[c],
        decreases width - j,
    {
        out.push((dictionary[j].clone(), sums[j]));
        j = j + 1;
    }
    out
}

/// How many rows a summary reads: all of them, or the number given where
/// that is fewer.
pub open spec fn processed_rows(matrix: Seq<Vec<u64>>, limit: Option<usize>) -> int {
    match limit {
        Some(n) => if n < matrix.len() { n as int } else { matrix.len() as int },
        None => matrix.len() as int,
    }
}

fn ranks_first(sums: &Vec<u128>, a: usize, b: usize) -> (out: bool)
    requires
        a < sums@.len(),
        b < sums@.len(),
    ensures
        out == ranks_before(scores_of(sums@), a as int, b as int),
{
    sums[a] > sums[b] || (sums[a] == sums[b] && a < b)
}

/// Lists the `n` best columns, best first: by sum from high to low, and among
/// equal sums by column from low to high.
pub fn rank_columns(sums: &Vec<u128>, n: usize) -> (top: Vec<usize>)
    requires
        n <= sums@.len(),
    ensures
        is_top_ranking(scores_of(sums@), top@, n as int),
{
    let width: usize = sums.len();
    let ghost scores = scores_of(sums@);
    let mut order: Vec<usize> = identity_order(width);
    let ghost mut place: Seq<int> = Seq::new(width as nat, |c: int| c);
    let mut top: Vec<usize> = Vec::new();
    let mut k: usize = 0;
    while k < n
        invariant
            width == sums@.len(),
            scores == scores_of(sums@),
            n <= width,
            k <= n,
            order@.len() == width,
            place.len() == width,
            top@.len() == k,
            forall|a: int| 0 <= a < width ==> 0 <= (#[trigger] order@[a]) < width && place[order@[a] as int] == a,
            forall|c: int| 0 <= c < width ==> 0 <= (#[trigger] place[c]) < width && order@[place[c]] == c,
            forall|a: int| 0 <= a < k ==> top@[a] == order@[a],
            forall|a: int, b: int|
                0 <= a < k && a < b < width ==> ranks_before(
                    scores,
                    #[trigger] order@[a] as int,
                    #[trigger] order@[b] as int,
                ),
        decreases n - k,
    {
        let mut best: usize = k;
        let mut q: usize = k + 1;
        while q < width
            invariant
                width == sums@.len(),
                scores == scores_of(sums@),
                order@.len() == width,
                place.len() == width,
                k <= best < q,
                q <= width,
                forall|a: int| 0 <= a < width ==> 0 <= (#[trigger] order@[a]) < width && place[order@[a] as int] == a,
                forall|b: int|
                    k <= b < q && b != best ==> ranks_before(
                        scores,
                        order@[best as int] as int,
                        #[trigger] order@[b] as int,
                    ),
            decreases width - q,
        {
            if ranks_first(sums, order[q], order[best]) {
                best = q;
            }
            q = q + 1;
        }
        let chosen: usize = order[best];
        let moved: usize = order[k];
        let ghost before = order@;
        order.set(best, moved);
        order.set(k, chosen);
        top.push(chosen);
        proof {
            place = place.update(chosen as int, k as int).update(moved as int, best as int);
            assert forall|a: int, b: int| 0 <= a < k + 1 && a < b < width implies ranks_before(
                scores,
                #[trigger] order@[a] as int,
                #[trigger] order@[b] as int,
            ) by {
                if a < k {
                    if b == best {
                        assert(ranks_before(scores, before[a] as int, before[k as int] as int));
                    } else if b == k {
                        assert(ranks_before(scores, before[a] as int, before[best as int] as int));
                    } else {
                        assert(ranks_before(scores, before[a] as int, before[b] as int));
                    }
                } else {
                    if b == best {
                        assert(ranks_before(
                            scores,
                            before[best as int] as int,
                            before[k as int] as int,
                        ));
                    } else {
                        assert(ranks_before(
                            scores,
                            before[best as int] as int,
                            before[b] as int,
                        ));
                    }
                }
            }
        }
        k = k + 1;
    }
    proof {
        assert forall|p: int, c: int|
            0 <= p < n && 0 <= c < scores.len() && !top@.contains(c as usize) implies #[trigger] ranks_before(
            scores,
            top@[p] as int,
            c,
        ) by {
            let at = place[c];
            assert(order@[at] == c);
            if at < n {
                assert(top@[at] == c as usize);
            }
            assert(ranks_before(scores, order@[p] as int, order@[at] as int));
        }
        assert forall|a: int, b: int| 0 <= a < b < n implies ranks_before(
            scores,
            #[trigger] top@[a] as int,
            #[trigger] top@[b] as int,
        ) by {
            assert(ranks_before(scores, order@[a] as int, order@[b] as int));
        }
    }
    top
}

/// Whether the new dictionary and matrix hold exactly the columns that
/// `order` lists, in that order, row by row.
pub open spec fn is_projection(
    dictionary: Seq<Term>,
    matrix: Seq<Vec<u64>>,
    order: Seq<usize>,
    new_dictionary: Seq<Term>,
    new_matrix: Seq<Vec<u64>>,
) -> bool {
    &&& new_dictionary.len() == order.len()
    &&& forall|k: int|
        0 <= k < order.len() ==> #[trigger] new_dictionary[k] == dictionary[order[k] as int]
    &&& new_matrix.len() == matrix.len()
    &&& forall|i: int|
        0 <= i < matrix.len() ==> is_projected_row(matrix[i]@, order, (#[trigger] new_matrix[i])@)
}

/// Whether `new_row` holds the entries of `row` that `order` lists, in that
/// order.
pub open spec fn is_projected_row(row: Seq<u64>, order: Seq<usize>, new_row: Seq<u64>) -> bool {
    &&& new_row.len() == order.len()
    &&& forall|k: int| 0 <= k < order.len() ==> #[trigger] new_row[k] == row[order[k] as int]
}

/// Two rankings of the same length over the same scores agree on their first
/// `k` places.
proof fn lemma_rankings_agree(scores: Seq<int>, a: Seq<usize>, b: Seq<usize>, n: int, k: int)
    requires
        is_top_ranking(scores, a, n),
        is_top_ranking(scores, b, n),
        0 <= k <= n,
    ensures
        forall|i: int| 0 <= i < k ==> a[i] == b[i],
    decreases k,
{
    if k > 0 {
        lemma_rankings_agree(scores, a, b, n, k - 1);
        let at = k - 1;
        let x = a[at];
        let y = b[at];
        if x != y {
            if ranks_before(scores, x as int, y as int) {
                lemma_place_in_other(scores, a, b, n, at);
            } else {
                assert(ranks_before(scores, y as int, x as int));
                lemma_place_in_other(scores, b, a, n, at);
            }
        }
    }
}

/// Where two rankings agree before place `at`, the entry of the first at
/// `at` does not rank before the entry of the second there.
proof fn lemma_place_in_other(scores: Seq<int>, a: Seq<usize>, b: Seq<usize>, n: int, at: int)
    requires
        is_top_ranking(scores, a, n),
        is_top_ranking(scores, b, n),
        0 <= at < n,
        forall|i: int| 0 <= i < at ==> a[i] == b[i],
        a[at] != b[at],
    ensures
        !ranks_before(scores, a[at] as int, b[at] as int),
{
    let x = a[at];
    if b.contains(x) {
        let p = choose|p: int| 0 <= p < b.len() && b[p] == x;
        if p < at {
            assert(a[p] == x);
            assert(ranks_before(scores, a[p] as int, a[at] as int));
        } else {
            assert(p > at);
            assert(ranks_before(scores, b[at] as int, b[p] as int));
        }
    } else {
        assert(ranks_before(scores, b[at] as int, x as int));
    }
}

/// The ranking is unique: two lists of the `n` best columns over the same
/// scores are the same list, so that ranking twice gives one result.
pub proof fn lemma_top_ranking_unique(scores: Seq<int>, a: Seq<usize>, b: Seq<usize>, n: int)
    requires
        is_top_ranking(scores, a, n),
        is_top_ranking(scores, b, n),
    ensures
        a == b,
{
    lemma_rankings_agree(scores, a, b, n, n);
    assert(a =~= b);
}

/// Whether two matrices have the same rows in the same order.
pub open spec fn same_rows(matrix: Seq<Vec<u64>>, other: Seq<Vec<u64>>) -> bool {
    &&& other.len() == matrix.len()
    &&& forall|i: int| 0 <= i < other.len() ==> (#[trigger] other[i])@ == matrix[i]@
}

/// Whether the new dictionary and matrix are the reduction of the given ones
/// to their `n` best columns: the same as given where `n` is at or above the
/// number of columns, and otherwise the columns that the ranking of the
/// column sums lists, in its order.
pub open spec fn is_top_n_reduction(
    dictionary: Seq<String>,
    matrix: Seq<Vec<u64>>,
    n: int,
    new_dictionary: Seq<String>,
    new_matrix: Seq<Vec<u64>>,
) -> bool {
    if n >= dictionary.len() {
        new_dictionary == dictionary && same_rows(matrix, new_matrix)
    } else {
        exists|order: Seq<usize>|
            {
                &&& is_top_ranking(column_scores(matrix, dictionary.len() as int), order, n)
                &&& #[trigger] is_projection(
                    terms(dictionary),
                    matrix,
                    order,
                    terms(new_dictionary),
                    new_matrix,
                )
            }
    }
}

/// A reduction is determined by its input: two reductions of the same
/// dictionary and matrix to the same `n` hold the same terms and the same
/// rows.
pub proof fn lemma_reduction_is_determined(
    dictionary: Seq<String>,
    matrix: Seq<Vec<u64>>,
    n: int,
    first: (Seq<String>, Seq<Vec<u64>>),
    second: (Seq<String>, Seq<Vec<u64>>),
)
    requires
        is_top_n_reduction(dictionary, matrix, n, first.0, first.1),
        is_top_n_reduction(dictionary, matrix, n, second.0, second.1),
    ensures
        terms(first.0) == terms(second.0),
        same_rows(first.1, second.1),
{
    if n < dictionary.len() {
        let scores = column_scores(matrix, dictionary.len() as int);
        let a = choose|order: Seq<usize>|
            is_top_ranking(scores, order, n) && #[trigger] is_projection(
                terms(dictionary),
                matrix,
                order,
                terms(first.0),
                first.1,
            );
        let b = choose|order: Seq<usize>|
            is_top_ranking(scores, order, n) && #[trigger] is_projection(
                terms(dictionary),
                matrix,
                order,
                terms(second.0),
                second.1,
            );
        lemma_top_ranking_unique(scores, a, b, n);
        assert(terms(first.0) =~= terms(second.0));
        assert forall|i: int| 0 <= i < second.1.len() implies (#[trigger] second.1[i])@
            == first.1[i]@ by {
            assert(is_projected_row(matrix[i]@, a, first.1[i]@));
            assert(is_projected_row(matrix[i]@, a, second.1[i]@));
            assert(second.1[i]@ =~= first.1[i]@);
        }
    }
}

/// A reduction to at least as many columns as there are gives back what it
/// was given.
pub proof fn lemma_wide_reduction_is_identity(
    dictionary: Seq<String>,
    matrix: Seq<Vec<u64>>,
    n: int,
    reduced: (Seq<String>, Seq<Vec<u64>>),
)
    requires
        n >= dictionary.len(),
        is_top_n_reduction(dictionary, matrix, n, reduced.0, reduced.1),
    ensures
        reduced.0 == dictionary,
        same_rows(matrix, reduced.1),
{
}

/// Keeps the `n` columns with the highest sums, best first, in the
/// dictionary and in every row; among equal sums the lower column comes
/// first. With `n` at or above the number of columns nothing changes.
pub fn filter_top_n_words(dictionary: &Vec<String>, review_vectors: &Vec<Vec<u64>>, n: usize) -> (out:
    (Vec<String>, Vec<Vec<u64>>))
    requires
        is_rectangular(review_vectors@, dictionary@.len() as int),
    ensures
        is_top_n_reduction(dictionary@, review_vectors@, n as int, out.0@, out.1@),
{
    let width: usize = dictionary.len();
    let order: Vec<usize> = if n >= width {
        identity_order(width)
    } else {
        let sums = column_sums(review_vectors, width, review_vectors.len());
        proof {
            assert(review_vectors@.take(review_vectors@.len() as int) =~= review_vectors@);
            assert(scores_of(sums@) =~= column_scores(review_vectors@, width as int));
        }
        rank_columns(&sums, n)
    };
    let out = project_columns(dictionary, review_vectors, &order);
    proof {
        if n >= width {
            assert(out.0@ =~= dictionary@);
            assert forall|i: int| 0 <= i < out.1@.len() implies (#[trigger] out.1@[i])@
                == review_vectors@[i]@ by {
                assert(is_projected_row(review_vectors@[i]@, order@, out.1@[i]@));
                assert(out.1@[i]@ =~= review_vectors@[i]@);
            }
            assert(same_rows(review_vectors@, out.1@));
        } else {
            assert(is_projection(terms(dictionary@), review_vectors@, order@, terms(out.0@), out.1@));
        }
    }
    out
}

/// The columns `0, 1, ..` up to `width`, each at its own place.
fn identity_order(width: usize) -> (order: Vec<usize>)
    ensures
        order@.len() == width,
        forall|c: int| 0 <= c < width ==> order@[c] == c,
{
    let mut order: Vec<usize> = Vec::new();
    let mut j: usize = 0;
    while j < width
        invariant
            j <= width,
            order@.len() == j,
            forall|c: int| 0 <= c < j ==> order@[c] == c,
        decreases width - j,
    {
        order.push(j);
        j = j + 1;
    }
    order
}

/// Copies out of the dictionary and of every row the columns that `order`
/// lists, in that order. Rows keep their places.
pub fn project_columns(dictionary: &Vec<String>, review_vectors: &Vec<Vec<u64>>, order: &Vec<usize>) -> (out:
    (Vec<String>, Vec<Vec<u64>>))
    requires
        is_rectangular(review_vectors@, dictionary@.len() as int),
        forall|k: int| 0 <= k < order@.len() ==> order@[k] < dictionary@.len(),
    ensures
        is_projection(terms(dictionary@), review_vectors@, order@, terms(out.0@), out.1@),
        forall|k: int| 0 <= k < order@.len() ==> #[trigger] out.0@[k] == dictionary@[order@[k] as int],
{
    let n: usize = order.len();
    let mut words: Vec<String> = Vec::new();
    let mut k: usize = 0;
    while k < n
        invariant
            n == order@.len(),
            k <= n,
            words@.len() == k,
            forall|c: int| 0 <= c < order@.len() ==> order@[c] < dictionary@.len(),
            forall|c: int| 0 <= c < k ==> #[trigger] words@[c] == dictionary@[order@[c] as int],
        decreases n - k,
    {
        words.push(dictionary[order[k]].clone());
        k = k + 1;
    }
    let mut rows: Vec<Vec<u64>> = Vec::new();
    let m: usize = review_vectors.len();
    let mut i: usize = 0;
    while i < m
        invariant
            n == order@.len(),
            m == review_vectors@.len(),
            i <= m,
            rows@.len() == i,
            is_rectangular(review_vectors@, dictionary@.len() as int),
            forall|c: int| 0 <= c < order@.len() ==> order@[c] < dictionary@.len(),
            forall|r: int|
                0 <= r < i ==> is_projected_row(review_vectors@[r]@, order@, (#[trigger] rows@[r])@),
        decreases m - i,
    {
        let source = &review_vectors[i];
        let mut row: Vec<u64> = Vec::new();
        let mut c: usize = 0;
        while c < n
            invariant
                n == order@.len(),
                c <= n,
                row@.len() == c,
                source@.len() == dictionary@.len(),
                forall|x: int| 0 <= x < order@.len() ==> order@[x] < dictionary@.len(),
                forall|x: int| 0 <= x < c ==> #[trigger] row@[x] == source@[order@[x] as int],
            decreases n - c,
        {
            row.push(source[order[c]]);
            c = c + 1;
        }
        rows.push(row);
        i = i + 1;
    }
    (words, rows)
}

/// Orders the pairs by count from high to low; pairs of equal count keep the
/// order in which they came.
pub fn sort_by_count(pairs: &Vec<(String, u128)>) -> (out: Vec<(String, u128)>)
    ensures
        out@.len() == pairs@.len(),
        exists|order: Seq<usize>|
            {
                &&& #[trigger] is_top_ranking(pair_scores(pairs@), order, pairs@.len() as int)
                &&& forall|k: int|
                    0 <= k < out@.len() ==> {
                        &&& (#[trigger] out@[k]).0@ == pairs@[order[k] as int].0@
                        &&& out@[k].1 == pairs@[order[k] as int].1
                    }
            },
{
    let n: usize = pairs.len();
    let mut sums: Vec<u128> = Vec::new();
    let mut j: usize = 0;
    while j < n
        invariant
            n == pairs@.len(),
            j <= n,
            sums@.len() == j,
            forall|c: int| 0 <= c < j ==> sums@[c] == pairs@[c].1,
        decreases n - j,
    {
        sums.push(pairs[j].1);
        j = j + 1;
    }
    proof {
        assert(scores_of(sums@) =~= pair_scores(pairs@));
    }
    let order = rank_columns(&sums, n);
    let mut out: Vec<(String, u128)> = Vec::new();
    let mut k: usize = 0;
    while k < n
        invariant
            n == pairs@.len(),
            n == order@.len(),
            k <= n,
            out@.len() == k,
            is_top_ranking(pair_scores(pairs@), order@, n as int),
            forall|c: int|
                0 <= c < k ==> {
                    &&& (#[trigger] out@[c]).0@ == pairs@[order@[c] as int].0@
                    &&& out@[c].1 == pairs@[order@[c] as int].1
                },
        decreases n - k,
    {
        let at: usize = order[k];
        out.push((pairs[at].0.clone(), pairs[at].1));
        k = k + 1;
    }
    proof {
        assert(is_top_ranking(pair_scores(pairs@), order@, pairs@.len() as int));
    }
    out
}

/// The sum of all entries of a matrix, row by row.
pub open spec fn matrix_total(matrix: Seq<Vec<u64>>) -> nat
    decreases matrix.len(),
{
    if matrix.len() == 0 {
        0
    } else {
        matrix_total(matrix.drop_last()) + row_sum(matrix.last()@)
    }
}

/// The sum of the first `width` column sums of a matrix.
pub open spec fn columns_total(matrix: Seq<Vec<u64>>, width: int) -> nat
    decreases width,
{
    if width <= 0 {
        0
    } else {
        columns_total(matrix, width - 1) + column_sum(matrix, width - 1)
    }
}

/// The sum of the counts of a vector of pairs.
pub open spec fn pair_total(pairs: Seq<(String, u128)>) -> nat
    decreases pairs.len(),
{
    if pairs.len() == 0 {
        0
    } else {
        pair_total(pairs.drop_last()) + pairs.last().1 as nat
    }
}

proof fn lemma_columns_total_of_nothing(width: int)
    ensures
        columns_total(Seq::<Vec<u64>>::empty(), width) == 0,
    decreases width,
{
    if width > 0 {
        lemma_columns_total_of_nothing(width - 1);
    }
}

proof fn lemma_columns_total_with_row(matrix: Seq<Vec<u64>>, width: int)
    requires
        matrix.len() > 0,
        0 <= width <= matrix.last()@.len(),
    ensures
        columns_total(matrix, width) == columns_total(matrix.drop_last(), width) + row_sum(
            matrix.last()@.take(width),
        ),
    decreases width,
{
    let row = matrix.last()@;
    if width > 0 {
        lemma_columns_total_with_row(matrix, width - 1);
        assert(row.take(width).drop_last() =~= row.take(width - 1));
    }
}

/// The column sums of a matrix add up to the sum of all its entries.
pub proof fn lemma_columns_total_is_matrix_total(matrix: Seq<Vec<u64>>, width: int)
    requires
        0 <= width,
        is_rectangular(matrix, width),
    ensures
        columns_total(matrix, width) == matrix_total(matrix),
    decreases matrix.len(),
{
    if matrix.len() == 0 {
        assert(matrix =~= Seq::<Vec<u64>>::empty());
        lemma_columns_total_of_nothing(width);
    } else {
        let shorter = matrix.drop_last();
        assert forall|i: int| 0 <= i < shorter.len() implies (#[trigger] shorter[i]).len()
            == width by {
            assert(shorter[i] == matrix[i]);
            assert(matrix[i].len() == width);
        }
        assert(matrix[matrix.len() - 1].len() == width);
        lemma_columns_total_is_matrix_total(shorter, width);
        lemma_columns_total_with_row(matrix, width);
        assert(matrix.last()@.take(width) =~= matrix.last()@);
    }
}

proof fn lemma_pair_total_is_columns_total(pairs: Seq<(String, u128)>, matrix: Seq<Vec<u64>>)
    requires
        forall|j: int| 0 <= j < pairs.len() ==> (#[trigger] pairs[j]).1 as nat == column_sum(matrix, j),
    ensures
        pair_total(pairs) == columns_total(matrix, pairs.len() as int),
    decreases pairs.len(),
{
    if pairs.len() > 0 {
        let shorter = pairs.drop_last();
        assert forall|j: int| 0 <= j < shorter.len() implies (#[trigger] shorter[j]).1 as nat
            == column_sum(matrix, j) by {
            assert(shorter[j] == pairs[j]);
        }
        lemma_pair_total_is_columns_total(shorter, matrix);
        assert(pairs[pairs.len() - 1].1 as nat == column_sum(matrix, pairs.len() - 1));
    }
}

/// Nothing is lost in the summary: where each pair holds the sum of its
/// column, the counts of the pairs add up to the sum of all entries of the
/// matrix.
pub proof fn lemma_pairs_conserve_counts(pairs: Seq<(String, u128)>, matrix: Seq<Vec<u64>>)
    requires
        is_rectangular(matrix, pairs.len() as int),
        forall|j: int| 0 <= j < pairs.len() ==> (#[trigger] pairs[j]).1 as nat == column_sum(matrix, j),
    ensures
        pair_total(pairs) == matrix_total(matrix),
{
    lemma_pair_total_is_columns_total(pairs, matrix);
    lemma_columns_total_is_matrix_total(matrix, pairs.len() as int);
}

} // verus!
