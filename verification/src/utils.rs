//! Matrix helpers.

use vstd::prelude::*;
use crate::breeze_reconstruct_dealer::{is_rectangular, column_count};

verus! {

/// Transposition of a rectangular matrix given by its rows; each element is
/// cloned into its new place.  Rows must have one length.
pub fn transpose<T: Clone>(matrix: Vec<Vec<T>>) -> (res: Vec<Vec<T>>)
    requires
        is_rectangular(matrix@),
    ensures
        res.len() == column_count(matrix@),
        forall|j: int| 0 <= j < res.len() ==> (#[trigger] res[j]).len() == matrix.len(),
        forall|i: int, j: int|
            0 <= i < matrix.len() && 0 <= j < res.len() ==> cloned(
                matrix[i][j],
                #[trigger] res[j][i],
            ),
{
    if matrix.len() == 0 {
        return Vec::new();
    }
    let rows = matrix.len();
    let cols = matrix[0].len();
    let mut result: Vec<Vec<T>> = Vec::new();
    let mut j: usize = 0;
    while j < cols
        invariant
            rows == matrix.len(),
            rows > 0,
            cols == matrix[0].len(),
            is_rectangular(matrix@),
            j <= cols,
            result.len() == j,
            forall|k: int| 0 <= k < j ==> (#[trigger] result[k]).len() == rows,
            forall|i: int, k: int|
                0 <= i < rows && 0 <= k < j ==> cloned(matrix[i][k], #[trigger] result[k][i]),
        decreases cols - j,
    {
        let mut new_row: Vec<T> = Vec::new();
        let mut i: usize = 0;
        while i < rows
            invariant
                rows == matrix.len(),
                cols == matrix[0].len(),
                is_rectangular(matrix@),
                j < cols,
                i <= rows,
                new_row.len() == i,
                forall|k: int| 0 <= k < i ==> cloned(matrix[k][j as int], #[trigger] new_row[k]),
            decreases rows - i,
        {
            assert(matrix[i as int].len() == cols);
            let e = matrix[i][j].clone();
            new_row.push(e);
            i = i + 1;
        }
        result.push(new_row);
        j = j + 1;
    }
    result
}


/// Cloning a value of `T` gives that value back.
pub open spec fn clone_is_identity<T: Clone>() -> bool {
    forall|a: T, b: T| #[trigger] cloned(a, b) ==> a == b
}

/// Law: for an element type whose clone is the value itself, transposing a
/// rectangular matrix with at least one entry twice gives the matrix back.
pub proof fn lemma_transpose_twice_clones<T: Clone>(m: Seq<Vec<T>>, once: Seq<Vec<T>>, twice: Seq<Vec<T>>)
    requires
        clone_is_identity::<T>(),
        is_rectangular(m),
        m.len() >= 1,
        m[0].len() >= 1,
        once.len() == column_count(m),
        forall|j: int| 0 <= j < once.len() ==> (#[trigger] once[j]).len() == m.len(),
        forall|i: int, j: int| 0 <= i < m.len() && 0 <= j < once.len() ==> cloned(m[i][j], #[trigger] once[j][i]),
        twice.len() == column_count(once),
        forall|j: int| 0 <= j < twice.len() ==> (#[trigger] twice[j]).len() == once.len(),
        forall|i: int, j: int| 0 <= i < once.len() && 0 <= j < twice.len() ==> cloned(once[i][j], #[trigger] twice[j][i]),
    ensures
        twice.len() == m.len(),
        forall|i: int| 0 <= i < m.len() ==> (#[trigger] twice[i])@ == m[i]@,
{
    assert(once[0].len() == m.len());
    assert forall|i: int| 0 <= i < m.len() implies (#[trigger] twice[i])@ == m[i]@ by {
        assert(m[i].len() == m[0].len());
        assert forall|j: int| 0 <= j < m[i]@.len() implies twice[i]@[j] == m[i]@[j] by {
            assert(cloned(once[j][i], twice[i][j]));
            assert(cloned(m[i][j], once[j][i]));
        }
        assert(twice[i]@ =~= m[i]@);
    }
}

} // verus!
