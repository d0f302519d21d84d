//! Dense vectors and matrices of [`Binary64`], held in `ndarray` arrays.

use crate::binary64::Binary64;
use vstd::prelude::*;

verus! {

/// A dense vector, held in an `ndarray::Array1`.
#[verifier::external_body]
#[derive(Debug, PartialEq)]
pub struct Vector {
    entries: ndarray::Array1<Binary64>,
}

/// The entries of a vector, in order.
pub uninterp spec fn vector_entries(v: Vector) -> Seq<Binary64>;

impl View for Vector {
    type V = Seq<Binary64>;

    open spec fn view(&self) -> Seq<Binary64> {
        vector_entries(*self)
    }
}

/// `ndarray::Array1::from_vec`: the array holds the entries of the `Vec`, in order.
#[verifier::external_body]
fn vector_from_vec(entries: Vec<Binary64>) -> (v: Vector)
    ensures
        vector_entries(v) == entries@,
{
    Vector { entries: ndarray::Array1::from_vec(entries) }
}

/// `ndarray::ArrayBase::len`: the number of entries.
#[verifier::external_body]
fn vector_len(v: &Vector) -> (n: usize)
    ensures
        n == vector_entries(*v).len(),
{
    v.entries.len()
}

/// `ndarray::ArrayBase`'s `Index` with one subscript: the entry at that place. It
/// panics out of bounds.
#[verifier::external_body]
fn vector_index(v: &Vector, i: usize) -> (x: Binary64)
    requires
        i < vector_entries(*v).len(),
    ensures
        x == vector_entries(*v)[i as int],
{
    v.entries[i]
}

/// `ndarray::ArrayBase`'s `IndexMut` with one subscript: writes one entry and
/// leaves the others. It panics out of bounds.
#[verifier::external_body]
fn vector_index_mut(v: &mut Vector, i: usize, x: Binary64)
    requires
        i < vector_entries(*old(v)).len(),
    ensures
        vector_entries(*final(v)) == vector_entries(*old(v)).update(i as int, x),
{
    v.entries[i] = x;
}

/// `ndarray::ArrayBase`'s `Clone`: an array with the same entries.
#[verifier::external_body]
fn vector_clone(v: &Vector) -> (copy: Vector)
    ensures
        vector_entries(copy) == vector_entries(*v),
{
    Vector { entries: v.entries.clone() }
}

impl Vector {
    /// The vector of the given entries.
    pub fn new(entries: Vec<Binary64>) -> (v: Vector)
        ensures
            v@ == entries@,
    {
        vector_from_vec(entries)
    }

    /// The number of entries.
    pub fn len(&self) -> (n: usize)
        ensures
            n == self@.len(),
    {
        vector_len(self)
    }

    /// The entry at place `i`.
    pub fn at(&self, i: usize) -> (x: Binary64)
        requires
            i < self@.len(),
        ensures
            x == self@[i as int],
    {
        vector_index(self, i)
    }

    /// Write the entry at place `i`.
    pub fn set(&mut self, i: usize, x: Binary64)
        requires
            i < old(self)@.len(),
        ensures
            final(self)@ == old(self)@.update(i as int, x),
    {
        vector_index_mut(self, i, x)
    }
}

impl Clone for Vector {
    fn clone(&self) -> (copy: Vector)
        ensures
            copy@ == self@,
    {
        vector_clone(self)
    }
}

/// A dense matrix, held in an `ndarray::Array2`.
#[verifier::external_body]
#[derive(Debug, PartialEq)]
pub struct Matrix {
    entries: ndarray::Array2<Binary64>,
}

/// The rows of a matrix, in order, each with its entries in order.
pub uninterp spec fn matrix_rows(m: Matrix) -> Seq<Seq<Binary64>>;

/// The number of columns of a matrix, which it has even without a row.
pub uninterp spec fn matrix_columns(m: Matrix) -> nat;

impl View for Matrix {
    type V = Seq<Seq<Binary64>>;

    open spec fn view(&self) -> Seq<Seq<Binary64>> {
        matrix_rows(*self)
    }
}

/// Whether a shape has the given number of entries and no axis longer than
/// `isize::MAX`.
pub open spec fn shape_fits(rows: int, columns: int, entries: int) -> bool {
    rows * columns == entries && rows <= isize::MAX && columns <= isize::MAX
}

/// Entries laid out row by row.
pub open spec fn row_major(rows: nat, columns: nat, entries: Seq<Binary64>) -> Seq<Seq<Binary64>> {
    Seq::new(rows, |i: int| Seq::new(columns, |j: int| entries[i * columns + j]))
}

/// `ndarray::ArrayBase::from_shape_vec` with the default, row-major layout: the
/// array takes its entries row by row. It fails where the shape has another number
/// of entries than the `Vec`, or an axis longer than `isize::MAX`.
#[verifier::external_body]
fn matrix_from_shape_vec(rows: usize, columns: usize, entries: Vec<Binary64>) -> (m: Option<Matrix>)
    ensures
        m is Some <==> shape_fits(rows as int, columns as int, entries@.len() as int),
        m is Some ==> matrix_columns(m->0) == columns,
        m is Some ==> matrix_rows(m->0) == row_major(rows as nat, columns as nat, entries@),
{
    match ndarray::Array2::from_shape_vec((rows, columns), entries) {
        Ok(entries) => Some(Matrix { entries }),
        Err(_) => None,
    }
}

/// `ndarray::ArrayBase::nrows`: the number of rows.
#[verifier::external_body]
fn matrix_nrows(m: &Matrix) -> (n: usize)
    ensures
        n == matrix_rows(*m).len(),
{
    m.entries.nrows()
}

/// `ndarray::ArrayBase::ncols`: the number of columns, which is the length of every
/// row.
#[verifier::external_body]
fn matrix_ncols(m: &Matrix) -> (n: usize)
    ensures
        n == matrix_columns(*m),
        forall|i: int| 0 <= i < matrix_rows(*m).len() ==> #[trigger] matrix_rows(*m)[i].len() == n,
{
    m.entries.ncols()
}

/// `ndarray::ArrayBase`'s `Index` with two subscripts: the entry at that row and
/// column. It panics out of bounds.
#[verifier::external_body]
fn matrix_index(m: &Matrix, i: usize, j: usize) -> (x: Binary64)
    requires
        i < matrix_rows(*m).len(),
        j < matrix_columns(*m),
    ensures
        x == matrix_rows(*m)[i as int][j as int],
{
    m.entries[[i, j]]
}

/// `ndarray::ArrayBase`'s `IndexMut` with two subscripts: writes one entry and
/// leaves the others and the shape. It panics out of bounds.
#[verifier::external_body]
fn matrix_index_mut(m: &mut Matrix, i: usize, j: usize, x: Binary64)
    requires
        i < matrix_rows(*old(m)).len(),
        j < matrix_columns(*old(m)),
    ensures
        matrix_rows(*final(m)) == matrix_rows(*old(m)).update(
            i as int,
            matrix_rows(*old(m))[i as int].update(j as int, x),
        ),
        matrix_columns(*final(m)) == matrix_columns(*old(m)),
{
    m.entries[[i, j]] = x;
}

/// `ndarray::ArrayBase`'s `Clone`: an array with the same shape and entries.
#[verifier::external_body]
fn matrix_clone(m: &Matrix) -> (copy: Matrix)
    ensures
        matrix_rows(copy) == matrix_rows(*m),
        matrix_columns(copy) == matrix_columns(*m),
{
    Matrix { entries: m.entries.clone() }
}

impl Matrix {
    /// The number of columns.
    pub open spec fn columns(&self) -> nat {
        matrix_columns(*self)
    }

    /// The matrix of the given shape with the given entries, row by row. `None` where
    /// the shape has another number of entries or an axis longer than `isize::MAX`.
    pub fn new(rows: usize, columns: usize, entries: Vec<Binary64>) -> (m: Option<Matrix>)
        ensures
            m is Some <==> shape_fits(rows as int, columns as int, entries@.len() as int),
            m is Some ==> m->0.columns() == columns,
            m is Some ==> m->0@ == row_major(rows as nat, columns as nat, entries@),
    {
        matrix_from_shape_vec(rows, columns, entries)
    }

    /// The number of rows.
    pub fn nrows(&self) -> (n: usize)
        ensures
            n == self@.len(),
    {
        matrix_nrows(self)
    }

    /// The number of columns.
    pub fn ncols(&self) -> (n: usize)
        ensures
            n == self.columns(),
            forall|i: int| 0 <= i < self@.len() ==> #[trigger] self@[i].len() == n,
    {
        matrix_ncols(self)
    }

    /// The entry at row `i` and column `j`.
    pub fn at(&self, i: usize, j: usize) -> (x: Binary64)
        requires
            i < self@.len(),
            j < self.columns(),
        ensures
            x == self@[i as int][j as int],
    {
        matrix_index(self, i, j)
    }

    /// Write the entry at row `i` and column `j`.
    pub fn set(&mut self, i: usize, j: usize, x: Binary64)
        requires
            i < old(self)@.len(),
            j < old(self).columns(),
        ensures
            final(self)@ == old(self)@.update(i as int, old(self)@[i as int].update(j as int, x)),
            final(self).columns() == old(self).columns(),
    {
        matrix_index_mut(self, i, j, x)
    }
}

impl Clone for Matrix {
    fn clone(&self) -> (copy: Matrix)
        ensures
            copy@ == self@,
            copy.columns() == self.columns(),
    {
        matrix_clone(self)
    }
}

} // verus!
