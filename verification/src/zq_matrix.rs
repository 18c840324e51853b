//! Vectors and matrices over `Z_q`, held in `nalgebra`'s dynamically sized
//! `DVector` and `DMatrix`.
//!
//! Verus cannot read `nalgebra`'s storage types, so each collection sits in
//! a private field of a struct whose body is hidden; what it holds is named
//! by `zq_vector_entries` (a vector's entries in order) and by
//! `zq_matrix_rows` / `zq_matrix_ncols` (a matrix's rows and its number of
//! columns), and every method that reads or builds one says what it does to
//! those names.

use nalgebra::{DMatrix, DVector};
use vstd::prelude::*;
use crate::zq_int::ZqInt;

verus! {

/// A column vector over `Z_q` (`nalgebra::DVector<ZqInt>`).
#[verifier::external_body]
pub struct ZqVector {
    inner: DVector<ZqInt>,
}

/// The entries of a vector, in order.
pub uninterp spec fn zq_vector_entries(v: ZqVector) -> Seq<ZqInt>;

/// A matrix over `Z_q` (`nalgebra::DMatrix<ZqInt>`).
#[verifier::external_body]
pub struct ZqMatrix {
    inner: DMatrix<ZqInt>,
}

/// The rows of a matrix, each a sequence of `zq_matrix_ncols` entries.
pub uninterp spec fn zq_matrix_rows(m: ZqMatrix) -> Seq<Seq<ZqInt>>;

/// The number of columns of a matrix.
pub uninterp spec fn zq_matrix_ncols(m: ZqMatrix) -> nat;

/// `rows` is a `nrows x ncols` matrix.
pub open spec fn is_rect(rows: Seq<Seq<ZqInt>>, ncols: nat) -> bool {
    forall|i: int| 0 <= i < rows.len() ==> (#[trigger] rows[i]).len() == ncols
}

impl ZqVector {
    /// The entries.
    pub open spec fn entries(&self) -> Seq<ZqInt> {
        zq_vector_entries(*self)
    }

    /// Calls `DVector::from_vec`.  Claimed: the vector holds the entries of
    /// `data` in order.
    #[verifier::external_body]
    pub(crate) fn from_vec(data: Vec<ZqInt>) -> (v: ZqVector)
        ensures
            zq_vector_entries(v) == data@,
    {
        ZqVector { inner: DVector::from_vec(data) }
    }

    /// Calls `len` of `DVector`.  Claimed: the number of entries.
    #[verifier::external_body]
    pub(crate) fn len(&self) -> (n: usize)
        ensures
            n == zq_vector_entries(*self).len(),
    {
        self.inner.len()
    }

    /// Indexes a `DVector` with `[i]`, which panics out of bounds.  Claimed:
    /// entry `i`.
    #[verifier::external_body]
    pub(crate) fn get(&self, i: usize) -> (z: ZqInt)
        requires
            i < zq_vector_entries(*self).len(),
        ensures
            z == zq_vector_entries(*self)[i as int],
    {
        self.inner[i]
    }

    /// Calls `clone` of `DVector`.  Claimed: the copy holds the same entries.
    #[verifier::external_body]
    pub(crate) fn duplicate(&self) -> (v: ZqVector)
        ensures
            zq_vector_entries(v) == zq_vector_entries(*self),
    {
        ZqVector { inner: self.inner.clone() }
    }

    /// The entries, copied into a `Vec`.
    pub fn to_vec(&self) -> (out: Vec<ZqInt>)
        ensures
            out@ == self.entries(),
    {
        let n = self.len();
        let mut out: Vec<ZqInt> = Vec::new();
        let mut i: usize = 0;
        while i < n
            invariant
                i <= n,
                n == self.entries().len(),
                out@ == self.entries().subrange(0, i as int),
            decreases n - i,
        {
            out.push(self.get(i));
            i = i + 1;
            assert(out@ =~= self.entries().subrange(0, i as int));
        }
        assert(out@ =~= self.entries());
        out
    }

    /// Entry-wise equality.
    pub fn equals(&self, other: &ZqVector) -> (r: bool)
        ensures
            r == (self.entries() == other.entries()),
    {
        let n = self.len();
        if n != other.len() {
            return false;
        }
        let mut i: usize = 0;
        while i < n
            invariant
                i <= n,
                n == self.entries().len(),
                n == other.entries().len(),
                forall|j: int| 0 <= j < i ==> self.entries()[j] == other.entries()[j],
            decreases n - i,
        {
            if self.get(i) != other.get(i) {
                return false;
            }
            i = i + 1;
        }
        assert(self.entries() =~= other.entries());
        true
    }
}

impl ZqMatrix {
    /// The rows.
    pub open spec fn rows(&self) -> Seq<Seq<ZqInt>> {
        zq_matrix_rows(*self)
    }

    /// The number of columns.
    pub open spec fn ncols_spec(&self) -> nat {
        zq_matrix_ncols(*self)
    }

    /// The entry in row `i`, column `j`.
    pub open spec fn at(&self, i: int, j: int) -> ZqInt {
        zq_matrix_rows(*self)[i][j]
    }

    /// Calls `DMatrix::from_vec(nrows, ncols, data)`, which fills the matrix
    /// column by column and panics unless `data` has `nrows * ncols`
    /// entries.  Claimed: entry (i, j) is `data[i + j * nrows]`.
    #[verifier::external_body]
    pub(crate) fn from_column_major(nrows: usize, ncols: usize, data: Vec<ZqInt>) -> (m: ZqMatrix)
        requires
            data@.len() == nrows * ncols,
        ensures
            zq_matrix_rows(m).len() == nrows,
            zq_matrix_ncols(m) == ncols,
            is_rect(zq_matrix_rows(m), ncols as nat),
            forall|i: int, j: int|
                0 <= i < nrows && 0 <= j < ncols ==> #[trigger] zq_matrix_rows(m)[i][j]
                    == data@[i + j * nrows],
    {
        ZqMatrix { inner: DMatrix::from_vec(nrows, ncols, data) }
    }

    /// Calls `nrows` of `DMatrix`.  Claimed: the number of rows.
    #[verifier::external_body]
    pub(crate) fn nrows(&self) -> (n: usize)
        ensures
            n == zq_matrix_rows(*self).len(),
    {
        self.inner.nrows()
    }

    /// Calls `ncols` of `DMatrix`.  Claimed: the number of columns.
    #[verifier::external_body]
    pub(crate) fn ncols(&self) -> (n: usize)
        ensures
            n == zq_matrix_ncols(*self),
    {
        self.inner.ncols()
    }

    /// Indexes a `DMatrix` with `[(i, j)]`, which panics out of bounds.
    /// Claimed: the entry in row `i`, column `j`.
    #[verifier::external_body]
    pub(crate) fn get(&self, i: usize, j: usize) -> (z: ZqInt)
        requires
            i < zq_matrix_rows(*self).len(),
            j < zq_matrix_ncols(*self),
            is_rect(zq_matrix_rows(*self), zq_matrix_ncols(*self)),
        ensures
            z == zq_matrix_rows(*self)[i as int][j as int],
    {
        self.inner[(i, j)]
    }

    /// Calls `transpose` of `DMatrix`.  Claimed: entry (j, i) of the result
    /// is entry (i, j) of `self`.
    #[verifier::external_body]
    pub(crate) fn transpose(&self) -> (t: ZqMatrix)
        requires
            is_rect(zq_matrix_rows(*self), zq_matrix_ncols(*self)),
        ensures
            zq_matrix_rows(t).len() == zq_matrix_ncols(*self),
            zq_matrix_ncols(t) == zq_matrix_rows(*self).len(),
            is_rect(zq_matrix_rows(t), zq_matrix_ncols(t)),
            forall|i: int, j: int|
                0 <= i < zq_matrix_ncols(*self) && 0 <= j < zq_matrix_rows(*self).len()
                    ==> #[trigger] zq_matrix_rows(t)[i][j] == zq_matrix_rows(*self)[j][i],
    {
        ZqMatrix { inner: self.inner.transpose() }
    }
}

} // verus!
