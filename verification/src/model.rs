use vstd::prelude::*;

verus! {

/// A term as the contracts see it: its characters.
pub type Term = Seq<char>;

/// The terms that a vector of strings holds, in order.
pub open spec fn terms(v: Seq<String>) -> Seq<Term> {
    Seq::new(v.len(), |i: int| v[i]@)
}

/// The token lists that a vector of string vectors holds, in order.
pub open spec fn term_lists(v: Seq<Vec<String>>) -> Seq<Seq<Term>> {
    Seq::new(v.len(), |i: int| terms(v[i]@))
}

/// How often `t` occurs among `tokens`.
pub open spec fn occurrences(tokens: Seq<Term>, t: Term) -> nat
    decreases tokens.len(),
{
    if tokens.len() == 0 {
        0
    } else {
        occurrences(tokens.drop_last(), t) + if tokens.last() == t { 1nat } else { 0nat }
    }
}

/// How many of `tokens` are entries of `dictionary`.
pub open spec fn known_tokens(dictionary: Seq<Term>, tokens: Seq<Term>) -> nat
    decreases tokens.len(),
{
    if tokens.len() == 0 {
        0
    } else {
        known_tokens(dictionary, tokens.drop_last()) + if dictionary.contains(tokens.last()) {
            1nat
        } else {
            0nat
        }
    }
}

/// The sum of a row of counts.
pub open spec fn row_sum(row: Seq<u64>) -> nat
    decreases row.len(),
{
    if row.len() == 0 {
        0
    } else {
        row_sum(row.drop_last()) + row.last() as nat
    }
}

/// Whether `j` is the first position at which its term stands in `dictionary`.
pub open spec fn is_first_position(dictionary: Seq<Term>, j: int) -> bool {
    forall|i: int| 0 <= i < j ==> dictionary[i] != dictionary[j]
}

/// The count that column `j` holds for a document made of `tokens`: the
/// occurrences of the column's term, counted at the first column of that term.
pub open spec fn cell_count(dictionary: Seq<Term>, tokens: Seq<Term>, j: int) -> nat {
    if is_first_position(dictionary, j) {
        occurrences(tokens, dictionary[j])
    } else {
        0
    }
}

/// Whether `row` is the count vector of `tokens` over `dictionary`.
pub open spec fn is_count_row(dictionary: Seq<Term>, tokens: Seq<Term>, row: Seq<u64>) -> bool {
    &&& row.len() == dictionary.len()
    &&& forall|j: int| 0 <= j < row.len() ==> row[j] as nat == #[trigger] cell_count(dictionary, tokens, j)
}

/// Whether every row of `matrix` has `width` entries.
pub open spec fn is_rectangular(matrix: Seq<Vec<u64>>, width: int) -> bool {
    forall|i: int| 0 <= i < matrix.len() ==> (#[trigger] matrix[i]).len() == width
}

/// The sum of column `j` over the rows of `matrix`.
pub open spec fn column_sum(matrix: Seq<Vec<u64>>, j: int) -> nat
    decreases matrix.len(),
{
    if matrix.len() == 0 {
        0
    } else {
        column_sum(matrix.drop_last(), j) + matrix.last()[j] as nat
    }
}

/// In how many rows of `matrix` column `j` is not zero.
pub open spec fn document_frequency(matrix: Seq<Vec<u64>>, j: int) -> nat
    decreases matrix.len(),
{
    if matrix.len() == 0 {
        0
    } else {
        document_frequency(matrix.drop_last(), j) + if matrix.last()[j] > 0 { 1nat } else { 0nat }
    }
}

} // verus!
