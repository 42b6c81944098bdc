//! The lattice problem descriptor: all information for a problem of the
//! form `A·S = T` in `Z_q[X]/f`, together with per-coefficient magnitude
//! bounds on the secret `S`.

use vstd::prelude::*;
use crate::error::Error;
use crate::ring::Polynomial;

verus! {

/// A product of a row index and the column count stays inside the entry
/// buffer of a well-shaped matrix.
proof fn lemma_matrix_index(r: int, c: int, rows: int, cols: int)
    by (nonlinear_arith)
    requires
        0 <= r < rows,
        0 <= c < cols,
    ensures
        0 <= r * cols,
        r * cols + c < rows * cols,
{
}

/// A 2D container of independently owned entries with row and column
/// counts fixed at construction; entry `(r, c)` lives at `r * cols + c` of
/// the flat buffer.
pub struct Matrix<T> {
    /// Row count.
    pub rows: usize,
    /// Column count.
    pub cols: usize,
    /// Entries in row-major order.
    pub entries: Vec<T>,
}

impl<T> Matrix<T> {
    /// The flat entry buffer matches the declared shape.
    pub open spec fn wf(self) -> bool {
        self.entries@.len() == self.rows * self.cols
    }

    /// The entry at row `r`, column `c`.
    pub open spec fn entry(self, r: int, c: int) -> T {
        self.entries@[r * self.cols + c]
    }

    /// Build a matrix from its flat row-major entry vector, validating the
    /// shape instead of trusting it.
    pub fn new(rows: usize, cols: usize, entries: Vec<T>) -> (r: Result<Self, Error>)
        ensures
            r is Ok <==> entries@.len() == rows * cols,
            r matches Ok(m) ==> m.rows == rows && m.cols == cols && m.entries@ == entries@
                && m.wf(),
            r is Err ==> r == Err::<Matrix<T>, Error>(Error::PreconditionViolation),
    {
        let len = entries.len();
        match rows.checked_mul(cols) {
            Some(t) => {
                if t == len {
                    Ok(Matrix { rows, cols, entries })
                } else {
                    Err(Error::PreconditionViolation)
                }
            },
            None => Err(Error::PreconditionViolation),
        }
    }

    /// Read the entry at row `r`, column `c`.
    pub fn get(&self, r: usize, c: usize) -> (e: &T)
        requires
            self.wf(),
            r < self.rows,
            c < self.cols,
        ensures
            *e == self.entry(r as int, c as int),
    {
        let len = self.entries.len();
        proof {
            lemma_matrix_index(r as int, c as int, self.rows as int, self.cols as int);
        }
        &self.entries[r * self.cols + c]
    }
}

/// Per-coefficient magnitude bounds for one secret polynomial: entry `i`
/// bounds the magnitude of the degree-`i` coefficient.
pub struct Bounds(pub Vec<u64>);

/// All information for a problem of the form `A·S = T` in `Z_q[X]/f`:
/// useful for demonstrating full knowledge of a lattice relation before
/// performing zero-knowledge proofs. The descriptor holds values for which
/// the relation is claimed, independent of whether it is proven.
pub struct LatticeProblem {
    /// Public matrix `A`.
    pub a: Matrix<Polynomial>,
    /// Private message and encryption components `S`.
    pub s: Matrix<Polynomial>,
    /// Result of `A * S`.
    pub t: Matrix<Polynomial>,
    /// Polynomial divisor: the ring's reduction polynomial `f`.
    pub f: Polynomial,
    /// Bounds on the coefficients of the polynomials in `S`, parallel in
    /// shape to `S`.
    pub b: Matrix<Bounds>,
}

impl LatticeProblem {
    /// Dimensional consistency: `t` has the shape of `a * s`, and the
    /// bounds have the shape of `s`.
    pub open spec fn wf(self) -> bool {
        &&& self.a.wf()
        &&& self.s.wf()
        &&& self.t.wf()
        &&& self.b.wf()
        &&& self.a.cols == self.s.rows
        &&& self.t.rows == self.a.rows
        &&& self.t.cols == self.s.cols
        &&& self.b.rows == self.s.rows
        &&& self.b.cols == self.s.cols
    }

    /// Aggregate a problem instance, validating dimensional consistency of
    /// `t` with `a * s` and of the bounds with the secret.
    pub fn new(
        a: Matrix<Polynomial>,
        s: Matrix<Polynomial>,
        t: Matrix<Polynomial>,
        f: Polynomial,
        b: Matrix<Bounds>,
    ) -> (r: Result<LatticeProblem, Error>)
        requires
            a.wf(),
            s.wf(),
            t.wf(),
            b.wf(),
        ensures
            r is Ok <==> (a.cols == s.rows && t.rows == a.rows && t.cols == s.cols && b.rows
                == s.rows && b.cols == s.cols),
            r matches Ok(p) ==> p.a == a && p.s == s && p.t == t && p.f == f && p.b == b
                && p.wf(),
            r is Err ==> r == Err::<LatticeProblem, Error>(Error::PreconditionViolation),
    {
        if a.cols == s.rows && t.rows == a.rows && t.cols == s.cols && b.rows == s.rows && b.cols
            == s.cols {
            Ok(LatticeProblem { a, s, t, f, b })
        } else {
            Err(Error::PreconditionViolation)
        }
    }
}

} // verus!
