//! The backend's flattened polynomial-array buffer, and decoding of
//! residue-number-system words into centered signed representatives.

use vstd::prelude::*;
use vstd::arithmetic::div_mod::{lemma_fundamental_div_mod, lemma_mod_multiples_basic, lemma_small_mod};
use crate::error::Error;
use crate::trim::{trimmed, strip_trailing_value};

verus! {

/// The plain-value surface of the backend's polynomial-array buffer: a
/// flattened word buffer of logical shape
/// `[polynomial][modulus chunk][coefficient]`.
pub struct EncodedPolyArray {
    /// How many polynomials the buffer holds.
    pub num_polynomials: usize,
    /// The coefficient count (degree of the polynomial modulus) of each
    /// polynomial.
    pub poly_modulus_degree: usize,
    /// How many words each coefficient occupies (the backend's limb count
    /// per coefficient, one word per modulus in the residue view).
    pub coeff_modulus_size: usize,
    /// The flattened words.
    pub words: Vec<u64>,
}

impl EncodedPolyArray {
    /// The declared shape is consistent with the buffer.
    pub open spec fn wf(self) -> bool {
        &&& 1 <= self.coeff_modulus_size
        &&& self.words@.len() == self.num_polynomials * self.poly_modulus_degree
            * self.coeff_modulus_size
    }

    /// Runtime validation of the declared shape, rather than trusting the
    /// backend's metadata unconditionally.
    pub fn check_wf(&self) -> (b: bool)
        ensures
            b == self.wf(),
    {
        let wl = self.words.len();
        if self.coeff_modulus_size < 1 {
            return false;
        }
        match self.num_polynomials.checked_mul(self.poly_modulus_degree) {
            None => {
                proof {
                    lemma_shape_product_monotone(
                        self.num_polynomials as int,
                        self.poly_modulus_degree as int,
                        self.coeff_modulus_size as int,
                    );
                }
                false
            },
            Some(p) => match p.checked_mul(self.coeff_modulus_size) {
                None => false,
                Some(t) => t == wl,
            },
        }
    }

    /// The buffer position of coefficient `j` of polynomial `i` in the
    /// first-modulus plane of the residue view.
    pub open spec fn plane0_index(self, i: int, j: int) -> int {
        i * self.poly_modulus_degree * self.coeff_modulus_size + j
    }

    /// The residue word of coefficient `j` of polynomial `i` under the
    /// first modulus.
    pub open spec fn rns_word(self, i: int, j: int) -> u64 {
        self.words@[self.plane0_index(i, j)]
    }

    /// The centered signed representatives of polynomial `i`'s coefficients
    /// under modulus `m`.
    pub open spec fn decoded_row(self, m: u64, i: int) -> Seq<i64> {
        Seq::new(self.poly_modulus_degree as nat, |j: int| centered(self.rns_word(i, j), m) as i64)
    }
}

/// A product of three nonnegative factors dominates the product of the
/// first two when the third is at least one, and a flattened index stays
/// inside the buffer.
proof fn lemma_shape_product_monotone(num: int, degree: int, chunk: int)
    by (nonlinear_arith)
    requires
        0 <= num,
        0 <= degree,
        1 <= chunk,
    ensures
        num * degree <= num * degree * chunk,
{
}

/// Bounds for the flattened buffer position of coefficient `j` of
/// polynomial `i`, including its intermediate products.
proof fn lemma_flat_index(i: int, j: int, num: int, degree: int, chunk: int)
    by (nonlinear_arith)
    requires
        0 <= i < num,
        0 <= j < degree,
        1 <= chunk,
    ensures
        0 <= i * degree,
        i * degree <= i * degree * chunk,
        0 <= i * degree * chunk + j < num * degree * chunk,
{
}

/// The centered representative of residue word `c` modulo `m`: `c` itself
/// when it does not exceed half the modulus, `c - m` otherwise.
pub open spec fn centered(c: u64, m: u64) -> int {
    if c > m / 2 {
        c - m
    } else {
        c as int
    }
}

/// Centered-representative range: for any word `c` in `[0, m)`, the decoded
/// value is congruent to `c` modulo `m` and lies in the half-open centered
/// interval, i.e. `-m/2 < d <= m/2` over the rationals.
pub proof fn lemma_centered_range(c: u64, m: u64)
    requires
        c < m,
    ensures
        (centered(c, m) - c) % (m as int) == 0,
        -(m as int) < 2 * centered(c, m) <= m as int,
        i64::MIN <= centered(c, m) <= i64::MAX,
{
    let d = centered(c, m);
    lemma_fundamental_div_mod(m as int, 2);
    if c > m / 2 {
        assert(d - c == -1 * (m as int));
        lemma_mod_multiples_basic(-1, m as int);
    } else {
        assert(d - c == 0);
        lemma_small_mod(0, m as nat);
    }
}

/// Round trip for small values: the residue word that encodes a centered
/// representative `v` in `(-m/2, m/2]` modulo `m`.
pub open spec fn rns_word_of(v: i64, m: u64) -> u64
    recommends
        -(m as int) < 2 * (v as int) <= m as int,
{
    if v < 0 {
        (v + m) as u64
    } else {
        v as u64
    }
}

/// Encoding a centered representative in `(-m/2, m/2]` as a residue word
/// and decoding it again reproduces the value exactly.
pub proof fn lemma_centered_round_trip(v: i64, m: u64)
    requires
        -(m as int) < 2 * (v as int) <= m as int,
    ensures
        rns_word_of(v, m) < m,
        centered(rns_word_of(v, m), m) == v as int,
{
    lemma_fundamental_div_mod(m as int, 2);
}

/// Every residue word in the first-modulus plane lies below the first
/// modulus of `ms`, and the buffer shape is sound: exactly the inputs the
/// small-integer path decodes.
pub open spec fn smallint_ok(pa: EncodedPolyArray, ms: Seq<u64>) -> bool {
    &&& ms.len() > 0
    &&& pa.wf()
    &&& forall|i: int, j: int|
        0 <= i < pa.num_polynomials && 0 <= j < pa.poly_modulus_degree ==> #[trigger] pa.rns_word(
            i,
            j,
        ) < ms[0]
}

/// Convert a polynomial array whose coefficients are known to be small
/// (their true magnitude is below half the first modulus) into signed
/// integers: each word is replaced by its centered representative.
pub fn convert_to_smallint(coeff_modulus: &Vec<u64>, poly_array: &EncodedPolyArray) -> (r: Result<
    Vec<Vec<i64>>,
    Error,
>)
    ensures
        r is Ok <==> smallint_ok(*poly_array, coeff_modulus@),
        r is Err ==> r == Err::<Vec<Vec<i64>>, Error>(Error::PreconditionViolation),
        r matches Ok(v) ==> {
            &&& v@.len() == poly_array.num_polynomials
            &&& forall|i: int|
                0 <= i < v@.len() ==> (#[trigger] v@[i])@ == poly_array.decoded_row(
                    coeff_modulus@[0],
                    i,
                )
        },
{
    if coeff_modulus.len() == 0 {
        return Err(Error::PreconditionViolation);
    }
    if !poly_array.check_wf() {
        return Err(Error::PreconditionViolation);
    }
    let m = coeff_modulus[0];
    let num = poly_array.num_polynomials;
    let degree = poly_array.poly_modulus_degree;
    let chunk = poly_array.coeff_modulus_size;
    let half = m / 2;
    let mut result: Vec<Vec<i64>> = Vec::new();
    let mut i: usize = 0;
    while i < num
        invariant
            i <= num,
            poly_array.wf(),
            num == poly_array.num_polynomials,
            degree == poly_array.poly_modulus_degree,
            chunk == poly_array.coeff_modulus_size,
            half == m / 2,
            coeff_modulus@.len() > 0,
            m == coeff_modulus@[0],
            result@.len() == i,
            forall|k: int|
                0 <= k < i ==> (#[trigger] result@[k])@ == poly_array.decoded_row(m, k),
            forall|k: int, j: int|
                0 <= k < i && 0 <= j < degree ==> #[trigger] poly_array.rns_word(k, j) < m,
        decreases num - i,
    {
        let mut row: Vec<i64> = Vec::new();
        let mut j: usize = 0;
        while j < degree
            invariant
                i < num,
                j <= degree,
                poly_array.wf(),
                num == poly_array.num_polynomials,
                degree == poly_array.poly_modulus_degree,
                chunk == poly_array.coeff_modulus_size,
                half == m / 2,
                coeff_modulus@.len() > 0,
                m == coeff_modulus@[0],
                row@.len() == j,
                forall|j2: int|
                    0 <= j2 < j ==> #[trigger] row@[j2] == centered(
                        poly_array.rns_word(i as int, j2),
                        m,
                    ) as i64,
                forall|j2: int| 0 <= j2 < j ==> #[trigger] poly_array.rns_word(i as int, j2) < m,
            decreases degree - j,
        {
            let wl = poly_array.words.len();
            proof {
                lemma_flat_index(i as int, j as int, num as int, degree as int, chunk as int);
                assert(i * degree * chunk + j < wl);
            }
            let idx = i * degree * chunk + j;
            let c = poly_array.words[idx];
            if c >= m {
                assert(poly_array.rns_word(i as int, j as int) == c);
                return Err(Error::PreconditionViolation);
            }
            proof {
                lemma_centered_range(c, m);
            }
            let small: i64 = if c > half {
                ((c as i128) - (m as i128)) as i64
            } else {
                c as i64
            };
            assert(small as int == centered(poly_array.rns_word(i as int, j as int), m));
            row.push(small);
            j = j + 1;
        }
        proof {
            assert(row@ =~= poly_array.decoded_row(m, i as int));
        }
        result.push(row);
        i = i + 1;
    }
    Ok(result)
}

/// Convert a polynomial array of small coefficients into signed-integer
/// rows with the trailing run of zeros of each row removed.
pub fn convert_to_small_coeffs(coeff_modulus: &Vec<u64>, poly_array: &EncodedPolyArray) -> (r:
    Result<Vec<Vec<i64>>, Error>)
    ensures
        r is Ok <==> smallint_ok(*poly_array, coeff_modulus@),
        r is Err ==> r == Err::<Vec<Vec<i64>>, Error>(Error::PreconditionViolation),
        r matches Ok(v) ==> {
            &&& v@.len() == poly_array.num_polynomials
            &&& forall|i: int|
                0 <= i < v@.len() ==> (#[trigger] v@[i])@ == trimmed(
                    poly_array.decoded_row(coeff_modulus@[0], i),
                    0i64,
                )
        },
{
    let rows = convert_to_smallint(coeff_modulus, poly_array)?;
    let ghost all = rows@;
    let mut rows = rows;
    let mut out: Vec<Vec<i64>> = Vec::new();
    while rows.len() > 0
        invariant
            out@.len() + rows@.len() == all.len(),
            rows@ == all.skip(out@.len() as int),
            forall|k: int|
                0 <= k < out@.len() ==> (#[trigger] out@[k])@ == trimmed((all[k])@, 0i64),
        decreases rows@.len(),
    {
        let ghost done = out@.len() as int;
        let row = rows.remove(0);
        assert(row == all[done]);
        let t = strip_trailing_value(row, 0i64);
        out.push(t);
        proof {
            assert(rows@ =~= all.skip(done + 1));
        }
    }
    Ok(out)
}

} // verus!
