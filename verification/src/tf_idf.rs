use vstd::prelude::*;
use crate::model::{document_frequency, is_rectangular, row_sum};
use crate::reduce::count_limit;

verus! {

/// Why a matrix cannot be weighted.
#[derive(Debug, Clone, Copy, PartialEq, Eq, Structural)]
pub enum TfIdfError {
    /// The matrix has no rows.
    EmptyInput,
    /// A row is not as wide as the first row.
    ShapeMismatch,
}

/// An exact fraction of two counts. The denominator of every ratio that this
/// module gives out is positive.
#[derive(Debug, Clone, Copy, PartialEq, Eq, Structural)]
pub struct Ratio {
    pub num: u128,
    pub den: u128,
}

/// The two factors of one weight: the term frequency, and the ratio whose
/// natural logarithm is the inverse document frequency.
#[derive(Debug, Clone, Copy, PartialEq, Eq, Structural)]
pub struct Weight {
    pub tf: Ratio,
    pub idf: Ratio,
}

/// The term frequency of column `j` in a row: its count over the row's
/// total. A row without any count has the frequency `0 / 1` in every column.
pub open spec fn term_frequency(row: Seq<u64>, j: int) -> Ratio {
    if row_sum(row) == 0 {
        Ratio { num: 0, den: 1 }
    } else {
        Ratio { num: row[j] as u128, den: row_sum(row) as u128 }
    }
}

/// The ratio whose natural logarithm is the inverse document frequency of
/// column `j`: the number of rows over the number of rows that hold the
/// column's term. A column that no row holds has the ratio `1 / 1`, whose
/// logarithm is zero.
pub open spec fn inverse_document_ratio(matrix: Seq<Vec<u64>>, j: int) -> Ratio {
    if document_frequency(matrix, j) == 0 {
        Ratio { num: 1, den: 1 }
    } else {
        Ratio { num: matrix.len() as u128, den: document_frequency(matrix, j) as u128 }
    }
}

/// The sum of the numerators of a row of ratios.
pub open spec fn numerator_sum(ratios: Seq<Ratio>) -> nat
    decreases ratios.len(),
{
    if ratios.len() == 0 {
        0
    } else {
        numerator_sum(ratios.drop_last()) + ratios.last().num as nat
    }
}

/// A row sum never exceeds the row's length times the largest count.
pub proof fn lemma_row_sum_bound(row: Seq<u64>)
    ensures
        row_sum(row) <= row.len() * count_limit(),
    decreases row.len(),
{
    if row.len() > 0 {
        lemma_row_sum_bound(row.drop_last());
    }
}

/// A document frequency never exceeds the number of rows.
pub proof fn lemma_document_frequency_bound(matrix: Seq<Vec<u64>>, j: int)
    ensures
        document_frequency(matrix, j) <= matrix.len(),
    decreases matrix.len(),
{
    if matrix.len() > 0 {
        lemma_document_frequency_bound(matrix.drop_last(), j);
    }
}

/// The total count of a row.
pub fn row_total(row: &Vec<u64>) -> (total: u128)
    ensures
        total as nat == row_sum(row@),
{
    let n: usize = row.len();
    let mut total: u128 = 0;
    let mut j: usize = 0;
    while j < n
        invariant
            n == row@.len(),
            j <= n,
            total as nat == row_sum(row@.take(j as int)),
        decreases n - j,
    {
        proof {
            assert(row@.take(j + 1).drop_last() =~= row@.take(j as int));
            lemma_row_sum_bound(row@.take(j as int));
            assert(j * count_limit() <= 0xFFFF_FFFF_FFFF_FFFF * 0xFFFF_FFFF_FFFF_FFFF)
                by (nonlinear_arith)
                requires
                    0 <= j <= 0xFFFF_FFFF_FFFF_FFFF,
                    count_limit() == 0xFFFF_FFFF_FFFF_FFFF,
            ;
        }
        total = total + row[j] as u128;
        j = j + 1;
    }
    proof {
        assert(row@.take(n as int) =~= row@);
    }
    total
}

/// The term frequency of every column of a row, as exact ratios. A row
/// without any count gets `0 / 1` throughout.
pub fn calculate_term_frequency(review_vector: &Vec<u64>) -> (tf: Vec<Ratio>)
    ensures
        tf@.len() == review_vector@.len(),
        forall|j: int| 0 <= j < tf@.len() ==> #[trigger] tf@[j] == term_frequency(review_vector@, j),
        forall|j: int| 0 <= j < tf@.len() ==> (#[trigger] tf@[j]).den > 0,
{
    let total = row_total(review_vector);
    let n: usize = review_vector.len();
    let mut tf: Vec<Ratio> = Vec::new();
    let mut j: usize = 0;
    while j < n
        invariant
            n == review_vector@.len(),
            j <= n,
            tf@.len() == j,
            total as nat == row_sum(review_vector@),
            forall|c: int| 0 <= c < j ==> #[trigger] tf@[c] == term_frequency(review_vector@, c),
            forall|c: int| 0 <= c < j ==> (#[trigger] tf@[c]).den > 0,
        decreases n - j,
    {
        if total == 0 {
            tf.push(Ratio { num: 0, den: 1 });
        } else {
            tf.push(Ratio { num: review_vector[j] as u128, den: total });
        }
        j = j + 1;
    }
    tf
}

/// The numerators of a row's term frequencies are the row's counts, so they
/// sum to the row's total.
pub proof fn lemma_numerators_are_counts(row: Seq<u64>, tf: Seq<Ratio>)
    requires
        tf.len() == row.len(),
        forall|j: int| 0 <= j < tf.len() ==> (#[trigger] tf[j]).num == row[j],
    ensures
        numerator_sum(tf) == row_sum(row),
    decreases row.len(),
{
    if row.len() > 0 {
        lemma_numerators_are_counts(row.drop_last(), tf.drop_last());
    }
}

/// In a row with a count, the term frequencies share the row's total as
/// their denominator and their numerators sum to it: together they make
/// exactly one.
pub proof fn lemma_term_frequencies_sum_to_one(row: Seq<u64>, tf: Seq<Ratio>)
    requires
        row_sum(row) > 0,
        row_sum(row) <= u128::MAX,
        tf.len() == row.len(),
        forall|j: int| 0 <= j < tf.len() ==> #[trigger] tf[j] == term_frequency(row, j),
    ensures
        forall|j: int| 0 <= j < tf.len() ==> (#[trigger] tf[j]).den == row_sum(row),
        numerator_sum(tf) == row_sum(row),
{
    lemma_numerators_are_counts(row, tf);
}

/// The width of a matrix whose rows all have the width of the first.
pub fn matrix_width(matrix: &Vec<Vec<u64>>) -> (out: Result<usize, TfIdfError>)
    ensures
        matrix@.len() == 0 <==> out == Err::<usize, TfIdfError>(TfIdfError::EmptyInput),
        (matrix@.len() > 0 && !is_rectangular(matrix@, matrix@[0]@.len() as int)) <==> out == Err::<
            usize,
            TfIdfError,
        >(TfIdfError::ShapeMismatch),
        out is Ok ==> out->Ok_0 == matrix@[0]@.len(),
{
    let rows: usize = matrix.len();
    if rows == 0 {
        return Err(TfIdfError::EmptyInput);
    }
    let width: usize = matrix[0].len();
    let mut i: usize = 1;
    while i < rows
        invariant
            rows == matrix@.len(),
            1 <= i <= rows,
            width == matrix@[0]@.len(),
            forall|r: int| 0 <= r < i ==> (#[trigger] matrix@[r]).len() == width,
        decreases rows - i,
    {
        if matrix[i].len() != width {
            return Err(TfIdfError::ShapeMismatch);
        }
        i = i + 1;
    }
    Ok(width)
}

/// Counts for each column the rows in which it is not zero.
pub fn document_frequencies(matrix: &Vec<Vec<u64>>, width: usize) -> (df: Vec<usize>)
    requires
        is_rectangular(matrix@, width as int),
    ensures
        df@.len() == width,
        forall|j: int| 0 <= j < width ==> df@[j] as nat == document_frequency(matrix@, j),
{
    let rows: usize = matrix.len();
    let mut df: Vec<usize> = Vec::new();
    let mut j: usize = 0;
    while j < width
        invariant
            is_rectangular(matrix@, width as int),
            rows == matrix@.len(),
            j <= width,
            df@.len() == j,
            forall|c: int| 0 <= c < j ==> df@[c] as nat == document_frequency(matrix@, c),
        decreases width - j,
    {
        let mut count: usize = 0;
        let mut i: usize = 0;
        while i < rows
            invariant
                is_rectangular(matrix@, width as int),
                rows == matrix@.len(),
                j < width,
                i <= rows,
                count as nat == document_frequency(matrix@.take(i as int), j as int),
            decreases rows - i,
        {
            proof {
                assert(matrix@.take(i + 1).drop_last() =~= matrix@.take(i as int));
                assert(matrix@.take(i + 1).last() == matrix@[i as int]);
                lemma_document_frequency_bound(matrix@.take(i as int), j as int);
            }
            if matrix[i][j] > 0 {
                count = count + 1;
            }
            i = i + 1;
        }
        proof {
            assert(matrix@.take(rows as int) =~= matrix@);
        }
        df.push(count);
        j = j + 1;
    }
    df
}

/// For every column the ratio whose natural logarithm is its inverse
/// document frequency: rows over rows that hold the term, and `1 / 1` for a
/// column that no row holds. A matrix without rows, or with rows of
/// different widths, is refused.
pub fn calculate_inverse_document_frequency(review_vectors: &Vec<Vec<u64>>) -> (out: Result<
    Vec<Ratio>,
    TfIdfError,
>)
    ensures
        review_vectors@.len() == 0 <==> out == Err::<Vec<Ratio>, TfIdfError>(TfIdfError::EmptyInput),
        (review_vectors@.len() > 0 && !is_rectangular(
            review_vectors@,
            review_vectors@[0]@.len() as int,
        )) <==> out == Err::<Vec<Ratio>, TfIdfError>(TfIdfError::ShapeMismatch),
        out is Ok ==> {
            &&& out->Ok_0@.len() == review_vectors@[0]@.len()
            &&& forall|j: int|
                0 <= j < out->Ok_0@.len() ==> #[trigger] out->Ok_0@[j] == inverse_document_ratio(
                    review_vectors@,
                    j,
                )
            &&& forall|j: int| 0 <= j < out->Ok_0@.len() ==> (#[trigger] out->Ok_0@[j]).den > 0
        },
{
    let width: usize = match matrix_width(review_vectors) {
        Ok(width) => width,
        Err(e) => {
            return Err(e);
        },
    };
    let rows: usize = review_vectors.len();
    let df = document_frequencies(review_vectors, width);
    let mut idf: Vec<Ratio> = Vec::new();
    let mut j: usize = 0;
    while j < width
        invariant
            rows == review_vectors@.len(),
            df@.len() == width,
            j <= width,
            idf@.len() == j,
            forall|c: int| 0 <= c < width ==> df@[c] as nat == document_frequency(review_vectors@, c),
            forall|c: int|
                0 <= c < j ==> #[trigger] idf@[c] == inverse_document_ratio(review_vectors@, c),
            forall|c: int| 0 <= c < j ==> (#[trigger] idf@[c]).den > 0,
        decreases width - j,
    {
        if df[j] == 0 {
            idf.push(Ratio { num: 1, den: 1 });
        } else {
            idf.push(Ratio { num: rows as u128, den: df[j] as u128 });
        }
        j = j + 1;
    }
    Ok(idf)
}

/// With the number of rows fixed, a term that fewer rows hold has the larger
/// ratio, or the same: for two columns that some row holds, the ratio of the
/// rarer one is at least the ratio of the other.
pub proof fn lemma_rarer_term_has_larger_ratio(matrix: Seq<Vec<u64>>, a: int, b: int)
    requires
        matrix.len() <= usize::MAX,
        0 < document_frequency(matrix, a) <= document_frequency(matrix, b),
    ensures
        inverse_document_ratio(matrix, a).num * inverse_document_ratio(matrix, b).den
            >= inverse_document_ratio(matrix, b).num * inverse_document_ratio(matrix, a).den,
{
    lemma_document_frequency_bound(matrix, a);
    lemma_document_frequency_bound(matrix, b);
    let rows = matrix.len() as int;
    let da = document_frequency(matrix, a) as int;
    let db = document_frequency(matrix, b) as int;
    assert(rows * db >= rows * da) by (nonlinear_arith)
        requires
            rows >= 0,
            da <= db,
    ;
}

/// The two factors of every weight of the matrix: cell `(i, j)` holds the
/// term frequency of column `j` in row `i` and the inverse-document ratio of
/// column `j` over the whole matrix. The output has the shape of the input
/// and its rows keep their places. A matrix without rows, or with rows of
/// different widths, is refused.
pub fn calculate_tfidf(review_vectors: &Vec<Vec<u64>>) -> (out: Result<Vec<Vec<Weight>>, TfIdfError>)
    ensures
        review_vectors@.len() == 0 <==> out == Err::<Vec<Vec<Weight>>, TfIdfError>(
            TfIdfError::EmptyInput,
        ),
        (review_vectors@.len() > 0 && !is_rectangular(
            review_vectors@,
            review_vectors@[0]@.len() as int,
        )) <==> out == Err::<Vec<Vec<Weight>>, TfIdfError>(TfIdfError::ShapeMismatch),
        out is Ok ==> {
            &&& out->Ok_0@.len() == review_vectors@.len()
            &&& forall|i: int|
                0 <= i < out->Ok_0@.len() ==> is_weight_row(
                    review_vectors@,
                    i,
                    (#[trigger] out->Ok_0@[i])@,
                )
        },
{
    let idf = match calculate_inverse_document_frequency(review_vectors) {
        Ok(idf) => idf,
        Err(e) => {
            return Err(e);
        },
    };
    let rows: usize = review_vectors.len();
    let width: usize = idf.len();
    let mut out: Vec<Vec<Weight>> = Vec::new();
    let mut i: usize = 0;
    while i < rows
        invariant
            rows == review_vectors@.len(),
            rows > 0,
            i <= rows,
            out@.len() == i,
            width == idf@.len(),
            is_rectangular(review_vectors@, width as int),
            forall|j: int|
                0 <= j < width ==> #[trigger] idf@[j] == inverse_document_ratio(review_vectors@, j),
            forall|j: int| 0 <= j < width ==> (#[trigger] idf@[j]).den > 0,
            forall|r: int| 0 <= r < i ==> is_weight_row(review_vectors@, r, (#[trigger] out@[r])@),
        decreases rows - i,
    {
        let tf = calculate_term_frequency(&review_vectors[i]);
        let mut row: Vec<Weight> = Vec::new();
        let mut j: usize = 0;
        while j < width
            invariant
                i < rows,
                rows == review_vectors@.len(),
                width == idf@.len(),
                tf@.len() == width,
                j <= width,
                row@.len() == j,
                forall|c: int|
                    0 <= c < width ==> #[trigger] tf@[c] == term_frequency(review_vectors@[i as int]@, c),
                forall|c: int| 0 <= c < width ==> (#[trigger] tf@[c]).den > 0,
                forall|c: int|
                    0 <= c < width ==> #[trigger] idf@[c] == inverse_document_ratio(
                        review_vectors@,
                        c,
                    ),
                forall|c: int| 0 <= c < width ==> (#[trigger] idf@[c]).den > 0,
                forall|c: int|
                    0 <= c < j ==> #[trigger] row@[c] == (Weight {
                        tf: term_frequency(review_vectors@[i as int]@, c),
                        idf: inverse_document_ratio(review_vectors@, c),
                    }),
            decreases width - j,
        {
            row.push(Weight { tf: tf[j], idf: idf[j] });
            j = j + 1;
        }
        proof {
            assert(review_vectors@[i as int].len() == width);
            assert forall|c: int| 0 <= c < row@.len() implies (#[trigger] row@[c]).tf.den > 0
                && row@[c].idf.den > 0 by {
                assert(tf@[c].den > 0);
                assert(idf@[c].den > 0);
            }
            assert(is_weight_row(review_vectors@, i as int, row@));
        }
        out.push(row);
        i = i + 1;
    }
    Ok(out)
}

/// Whether `weights` is row `i` of the weighted matrix: as wide as the row
/// of counts, each cell holding the term frequency of its column in that row
/// and the inverse-document ratio of its column, both with positive
/// denominators.
pub open spec fn is_weight_row(matrix: Seq<Vec<u64>>, i: int, weights: Seq<Weight>) -> bool {
    &&& weights.len() == matrix[i]@.len()
    &&& forall|j: int|
        0 <= j < weights.len() ==> #[trigger] weights[j] == (Weight {
            tf: term_frequency(matrix[i]@, j),
            idf: inverse_document_ratio(matrix, j),
        })
    &&& forall|j: int|
        0 <= j < weights.len() ==> (#[trigger] weights[j]).tf.den > 0 && weights[j].idf.den > 0
}

} // verus!
