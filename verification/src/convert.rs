//! Conversion of backend polynomial-array buffers into degree-normalized
//! polynomials over the ring: a small-coefficient path through centered
//! representatives, and a multiprecision path through fixed-limb integers.

use vstd::prelude::*;
use vstd::std_specs::cmp::PartialEqSpec;
use crate::decode::{EncodedPolyArray, centered, convert_to_small_coeffs, lemma_centered_range, smallint_ok};
use crate::error::Error;
use crate::mp::{FixedUint, lemma_words_value_zero, words_value};
use crate::ring::{Polynomial, ZqElem, signed_residue};
use crate::trim::{lemma_trimmed_correct, strip_trailing_value, trimmed};

verus! {

/// A centered representative of a word below `m` is small for any ring
/// modulus whose doubled value exceeds `m`: nonnegative ones lie strictly
/// below it, negative ones have magnitude strictly below it.
proof fn lemma_centered_small(c: u64, m: u64, q: nat)
    requires
        c < m,
        2 * q > m,
    ensures
        centered(c, m) >= 0 ==> centered(c, m) < q,
        centered(c, m) < 0 ==> -centered(c, m) < q,
{
    lemma_centered_range(c, m);
}

/// Convert a polynomial array of small coefficients (true magnitude below
/// half the first modulus) into one degree-normalized polynomial per row,
/// mapping each surviving centered representative into the ring with
/// modulus `ring_modulus`; that ring must contain every centered
/// representative, i.e. twice its modulus value must exceed the first
/// coefficient modulus.
pub fn convert_to_polynomial_by_small_coeffs(
    coeff_modulus: &Vec<u64>,
    poly_array: &EncodedPolyArray,
    ring_modulus: &FixedUint,
) -> (r: Result<Vec<Polynomial>, Error>)
    ensures
        r is Ok <==> (smallint_ok(*poly_array, coeff_modulus@) && 2 * ring_modulus.value()
            > coeff_modulus@[0]),
        r is Err ==> r == Err::<Vec<Polynomial>, Error>(Error::PreconditionViolation),
        r matches Ok(v) ==> {
            &&& v@.len() == poly_array.num_polynomials
            &&& forall|i: int|
                0 <= i < v@.len() ==> {
                    let t = trimmed(poly_array.decoded_row(coeff_modulus@[0], i), 0i64);
                    let p = #[trigger] v@[i];
                    &&& p.coeffs@.len() == t.len()
                    &&& forall|j: int|
                        0 <= j < t.len() ==> (#[trigger] p.coeffs@[j]).value() == signed_residue(
                            t[j],
                            ring_modulus.value(),
                        )
                    &&& p.wf(*ring_modulus)
                    &&& p.normalized()
                }
        },
{
    let rows = convert_to_small_coeffs(coeff_modulus, poly_array)?;
    let m = coeff_modulus[0];
    proof {
        vstd::arithmetic::div_mod::lemma_fundamental_div_mod(m as int, 2);
    }
    if !ring_modulus.ge_u64(m / 2 + 1) {
        return Err(Error::PreconditionViolation);
    }
    let ghost q = ring_modulus.value();
    let ghost all = rows@;
    let mut rows = rows;
    let mut out: Vec<Polynomial> = Vec::new();
    while rows.len() > 0
        invariant
            out@.len() + rows@.len() == all.len(),
            rows@ == all.skip(out@.len() as int),
            q == ring_modulus.value(),
            2 * q > m,
            smallint_ok(*poly_array, coeff_modulus@),
            m == coeff_modulus@[0],
            all.len() == poly_array.num_polynomials,
            forall|k: int|
                0 <= k < all.len() ==> (#[trigger] all[k])@ == trimmed(
                    poly_array.decoded_row(m, k),
                    0i64,
                ),
            forall|k: int|
                0 <= k < out@.len() ==> {
                    let t = trimmed(poly_array.decoded_row(m, k), 0i64);
                    let p = #[trigger] out@[k];
                    &&& p.coeffs@.len() == t.len()
                    &&& forall|j: int|
                        0 <= j < t.len() ==> (#[trigger] p.coeffs@[j]).value() == signed_residue(
                            t[j],
                            q,
                        )
                    &&& p.wf(*ring_modulus)
                    &&& p.normalized()
                },
        decreases rows@.len(),
    {
        let ghost done = out@.len() as int;
        let row = rows.remove(0);
        assert(row == all[done]);
        let ghost dr = poly_array.decoded_row(m, done);
        proof {
            lemma_trimmed_correct(dr, 0i64);
            assert(row@ == dr.take(row@.len() as int));
            assert forall|j2: int| 0 <= j2 < row@.len() implies {
                &&& (#[trigger] row@[j2]) >= 0 ==> (row@[j2] as int) < q
                &&& row@[j2] < 0 ==> -(row@[j2] as int) < q
            } by {
                assert(row@[j2] == dr[j2]);
                let c = poly_array.rns_word(done, j2);
                assert(c < m);
                lemma_centered_range(c, m);
                lemma_centered_small(c, m, q);
            }
        }
        let mut coeffs: Vec<ZqElem> = Vec::new();
        let mut j: usize = 0;
        while j < row.len()
            invariant
                j <= row@.len(),
                coeffs@.len() == j,
                q == ring_modulus.value(),
                forall|j2: int|
                    0 <= j2 < row@.len() ==> {
                        &&& (#[trigger] row@[j2]) >= 0 ==> (row@[j2] as int) < q
                        &&& row@[j2] < 0 ==> -(row@[j2] as int) < q
                    },
                forall|j2: int|
                    0 <= j2 < j ==> (#[trigger] coeffs@[j2]).value() == signed_residue(row@[j2], q)
                        && coeffs@[j2].is_residue(*ring_modulus),
            decreases row@.len() - j,
        {
            let v = row[j];
            let e = ZqElem::from_signed(v, ring_modulus);
            coeffs.push(e);
            j = j + 1;
        }
        proof {
            let t = trimmed(dr, 0i64);
            if t.len() > 0 {
                assert(!t.last().eq_spec(&0i64));
                let v = t[t.len() - 1];
                assert(coeffs@.last().value() == signed_residue(v, q));
                if v < 0 {
                    assert(-(v as int) < q);
                }
            }
            assert(rows@ =~= all.skip(done + 1));
        }
        out.push(Polynomial { coeffs });
    }
    Ok(out)
}

/// The `chunk_size` backend words of flattened coefficient `c` in the
/// multiprecision view.
pub open spec fn mp_chunk(pa: EncodedPolyArray, c: int) -> Seq<u64> {
    pa.words@.subrange(c * pa.coeff_modulus_size, (c + 1) * pa.coeff_modulus_size)
}

/// The first `n` words of flattened coefficient `c`: the limbs the target
/// ring keeps.
pub open spec fn mp_coeff_words(pa: EncodedPolyArray, n: nat, c: int) -> Seq<u64> {
    mp_chunk(pa, c).take(n as int)
}

/// The backend's padding guarantee: every chunk word past the first `n` is
/// zero, so discarding it loses nothing.
pub open spec fn discard_ok(pa: EncodedPolyArray, n: nat) -> bool {
    forall|c: int, k: int|
        0 <= c < pa.num_polynomials * pa.poly_modulus_degree && n <= k < pa.coeff_modulus_size
            ==> #[trigger] mp_chunk(pa, c)[k] == 0
}

/// The kept word sequences of polynomial `i`'s coefficients, in degree
/// order, before trimming.
pub open spec fn mp_row_words(pa: EncodedPolyArray, n: nat, i: int) -> Seq<Seq<u64>> {
    Seq::new(
        pa.poly_modulus_degree as nat,
        |j: int| mp_coeff_words(pa, n, i * pa.poly_modulus_degree + j),
    )
}

/// Trailing zero-value trim over word sequences.
pub open spec fn trimmed_zero_words(s: Seq<Seq<u64>>) -> Seq<Seq<u64>>
    decreases s.len(),
{
    if s.len() > 0 && words_value(s.last()) == 0 {
        trimmed_zero_words(s.drop_last())
    } else {
        s
    }
}

/// After trimming, every kept coefficient of polynomial `i` is a valid
/// residue for a modulus of value `q`.
pub open spec fn mp_row_in_range(pa: EncodedPolyArray, n: nat, i: int, q: nat) -> bool {
    let tw = trimmed_zero_words(mp_row_words(pa, n, i));
    forall|j: int| 0 <= j < tw.len() ==> words_value(#[trigger] tw[j]) < q
}

/// The shape and padding preconditions of the multiprecision path.
pub open spec fn mp_shape_ok(pa: EncodedPolyArray, n: nat) -> bool {
    &&& pa.wf()
    &&& n <= pa.coeff_modulus_size
    &&& discard_ok(pa, n)
}

/// Exactly the inputs the multiprecision path converts for a ring of limb
/// count `n` and modulus value `q`.
pub open spec fn mp_ok(pa: EncodedPolyArray, n: nat, q: nat) -> bool {
    &&& mp_shape_ok(pa, n)
    &&& forall|i: int| 0 <= i < pa.num_polynomials ==> mp_row_in_range(pa, n, i, q)
}

/// Trimming a vector of equal-width fixed-limb integers by equality with
/// the all-zero integer is, viewed wordwise, the trailing zero-value trim.
proof fn lemma_trim_views(s: Seq<FixedUint>, z: FixedUint, n: nat)
    requires
        z@.len() == n,
        forall|k: int| 0 <= k < n ==> z@[k] == 0,
        forall|i: int| 0 <= i < s.len() ==> (#[trigger] s[i])@.len() == n,
    ensures
        trimmed(s, z).map_values(|f: FixedUint| f@) == trimmed_zero_words(
            s.map_values(|f: FixedUint| f@),
        ),
    decreases s.len(),
{
    let sv = s.map_values(|f: FixedUint| f@);
    lemma_words_value_zero(z@);
    if s.len() == 0 {
        assert(trimmed(s, z).map_values(|f: FixedUint| f@) =~= trimmed_zero_words(sv));
    } else {
        let lastv = s.last()@;
        assert(sv.last() == lastv);
        lemma_words_value_zero(lastv);
        let last_matches = s.last().eq_spec(&z);
        if last_matches {
            assert(lastv == z@);
            assert(words_value(lastv) == 0);
        } else {
            if words_value(lastv) == 0 {
                assert(forall|k: int| 0 <= k < lastv.len() ==> lastv[k] == 0);
                assert(lastv =~= z@);
                assert(false);
            }
        }
        if last_matches {
            lemma_trim_views(s.drop_last(), z, n);
            assert(s.drop_last().map_values(|f: FixedUint| f@) =~= sv.drop_last());
        } else {
            assert(trimmed(s, z).map_values(|f: FixedUint| f@) =~= trimmed_zero_words(sv));
        }
    }
}

/// Bounds for the multiprecision buffer positions of flattened coefficient
/// `i * degree + j`, including intermediate products.
proof fn lemma_mp_index(i: int, j: int, num: int, degree: int, chunk: int, n: int)
    by (nonlinear_arith)
    requires
        0 <= i < num,
        0 <= j < degree,
        0 <= n <= chunk,
    ensures
        0 <= i * degree + j < num * degree,
        0 <= (i * degree + j) * chunk,
        (i * degree + j) * chunk + chunk <= num * degree * chunk,
        num * degree <= num * degree * chunk || chunk == 0,
{
}

/// A product of two counts is no larger than the whole buffer they index
/// with a chunk of at least one word.
proof fn lemma_mp_total(num: int, degree: int, chunk: int)
    by (nonlinear_arith)
    requires
        0 <= num,
        0 <= degree,
        1 <= chunk,
    ensures
        num * degree <= num * degree * chunk,
{
}

/// Convert a polynomial array in the multiprecision view into one
/// degree-normalized polynomial per row, whatever the coefficient
/// magnitudes: each coefficient's first `n` backend words become a
/// fixed-limb integer (`n` being the ring's limb count; the discarded
/// padding words must be zero), trailing zero coefficients are removed,
/// and each kept integer is fallibly converted into the ring.
pub fn convert_to_polynomial(poly_array: &EncodedPolyArray, ring_modulus: &FixedUint) -> (r: Result<
    Vec<Polynomial>,
    Error,
>)
    ensures
        r is Ok <==> mp_ok(*poly_array, ring_modulus.width(), ring_modulus.value()),
        r == Err::<Vec<Polynomial>, Error>(Error::PreconditionViolation) <==> !mp_shape_ok(
            *poly_array,
            ring_modulus.width(),
        ),
        r matches Ok(v) ==> {
            &&& v@.len() == poly_array.num_polynomials
            &&& forall|i: int|
                0 <= i < v@.len() ==> {
                    let tw = trimmed_zero_words(
                        mp_row_words(*poly_array, ring_modulus.width(), i),
                    );
                    let p = #[trigger] v@[i];
                    &&& p.coeffs@.len() == tw.len()
                    &&& forall|j: int|
                        0 <= j < tw.len() ==> (#[trigger] p.coeffs@[j]).residue@ == tw[j]
                    &&& p.wf(*ring_modulus)
                    &&& p.normalized()
                }
        },
{
    let ghost n_spec = ring_modulus.width();
    let ghost q = ring_modulus.value();
    if !poly_array.check_wf() {
        return Err(Error::PreconditionViolation);
    }
    let n = ring_modulus.limbs.len();
    let num = poly_array.num_polynomials;
    let degree = poly_array.poly_modulus_degree;
    let chunk = poly_array.coeff_modulus_size;
    if chunk < n {
        return Err(Error::PreconditionViolation);
    }
    let wl = poly_array.words.len();
    proof {
        lemma_mp_total(num as int, degree as int, chunk as int);
    }
    let total = num * degree;

    // The padding guarantee is validated, not trusted: every discarded word
    // must be zero.
    let mut c: usize = 0;
    while c < total
        invariant
            c <= total,
            total == num * degree,
            num == poly_array.num_polynomials,
            degree == poly_array.poly_modulus_degree,
            chunk == poly_array.coeff_modulus_size,
            n == n_spec,
            n == ring_modulus.width(),
            n <= chunk,
            poly_array.wf(),
            wl == poly_array.words@.len(),
            forall|c2: int, k: int|
                0 <= c2 < c && n <= k < chunk ==> #[trigger] mp_chunk(*poly_array, c2)[k] == 0,
        decreases total - c,
    {
        proof {
            assert(0 <= c * chunk && c * chunk + chunk <= wl && (c as int + 1) * chunk as int == c
                as int * chunk as int + chunk as int) by (nonlinear_arith)
                requires
                    0 <= c < total,
                    total == num * degree,
                    1 <= chunk,
                    wl == num as int * degree as int * chunk as int,
                    num == poly_array.num_polynomials,
                    degree == poly_array.poly_modulus_degree,
                    chunk == poly_array.coeff_modulus_size,
            ;
        }
        let base = c * chunk;
        let mut k: usize = n;
        while k < chunk
            invariant
                n <= k <= chunk,
                n == ring_modulus.width(),
                base == c as int * chunk as int,
                base + chunk == (c as int + 1) * chunk as int,
                base + chunk <= wl,
                wl == poly_array.words@.len(),
                chunk == poly_array.coeff_modulus_size,
                0 <= c < poly_array.num_polynomials * poly_array.poly_modulus_degree,
                forall|k2: int| n <= k2 < k ==> #[trigger] mp_chunk(*poly_array, c as int)[k2] == 0,
            decreases chunk - k,
        {
            let w = poly_array.words[base + k];
            assert(mp_chunk(*poly_array, c as int)[k as int] == w);
            if w != 0 {
                assert(!discard_ok(*poly_array, n as nat));
                return Err(Error::PreconditionViolation);
            }
            k = k + 1;
        }
        c = c + 1;
    }
    assert(mp_shape_ok(*poly_array, n_spec));

    let mut out: Vec<Polynomial> = Vec::new();
    let mut i: usize = 0;
    while i < num
        invariant
            i <= num,
            num == poly_array.num_polynomials,
            degree == poly_array.poly_modulus_degree,
            chunk == poly_array.coeff_modulus_size,
            n == n_spec,
            q == ring_modulus.value(),
            n == ring_modulus.width(),
            poly_array.wf(),
            n <= chunk,
            wl == poly_array.words@.len(),
            mp_shape_ok(*poly_array, n_spec),
            out@.len() == i,
            forall|k: int| 0 <= k < i ==> mp_row_in_range(*poly_array, n_spec, k, q),
            forall|k: int|
                0 <= k < i ==> {
                    let tw = trimmed_zero_words(mp_row_words(*poly_array, n_spec, k));
                    let p = #[trigger] out@[k];
                    &&& p.coeffs@.len() == tw.len()
                    &&& forall|j: int|
                        0 <= j < tw.len() ==> (#[trigger] p.coeffs@[j]).residue@ == tw[j]
                    &&& p.wf(*ring_modulus)
                    &&& p.normalized()
                },
        decreases num - i,
    {
        let mut row: Vec<FixedUint> = Vec::new();
        let mut j: usize = 0;
        while j < degree
            invariant
                j <= degree,
                i < num,
                num == poly_array.num_polynomials,
                degree == poly_array.poly_modulus_degree,
                chunk == poly_array.coeff_modulus_size,
                n <= chunk,
                poly_array.wf(),
                wl == poly_array.words@.len(),
                row@.len() == j,
                forall|j2: int|
                    0 <= j2 < j ==> (#[trigger] row@[j2])@ == mp_coeff_words(
                        *poly_array,
                        n as nat,
                        i as int * degree as int + j2,
                    ),
                forall|j2: int| 0 <= j2 < j ==> (#[trigger] row@[j2])@.len() == n,
            decreases degree - j,
        {
            proof {
                lemma_mp_index(i as int, j as int, num as int, degree as int, chunk as int, n as int);
                let cci = i as int * degree as int + j as int;
                assert((cci + 1) * chunk as int == cci * chunk as int + chunk as int)
                    by (nonlinear_arith);
                assert(wl == num as int * degree as int * chunk as int);
            }
            let cc = i * degree + j;
            let start = cc * chunk;
            let f = FixedUint::from_words(&poly_array.words, start, n);
            proof {
                assert(f@ =~= mp_coeff_words(*poly_array, n as nat, cc as int));
            }
            row.push(f);
            j = j + 1;
        }
        let ghost rw = mp_row_words(*poly_array, n_spec, i as int);
        proof {
            assert(row@.map_values(|f: FixedUint| f@) =~= rw);
        }
        let z = FixedUint::zero(n);
        let ghost rowv = row@;
        proof {
            lemma_trim_views(row@, z, n as nat);
            lemma_trimmed_correct(row@, z);
        }
        let ghost trow = trimmed(row@, z);
        let t = strip_trailing_value(row, z);
        let ghost tw = trimmed_zero_words(rw);
        let ghost all_t = t@;
        proof {
            assert(t@.map_values(|f: FixedUint| f@) == tw);
            assert(t@.len() == tw.len());
            assert(trow == rowv.take(trow.len() as int));
            assert forall|j2: int| 0 <= j2 < all_t.len() implies (#[trigger] all_t[j2])@.len()
                == n by {
                assert(all_t[j2] == rowv[j2]);
            }
        }
        let mut t = t;
        let mut coeffs: Vec<ZqElem> = Vec::new();
        while t.len() > 0
            invariant
                coeffs@.len() + t@.len() == all_t.len(),
                t@ == all_t.skip(coeffs@.len() as int),
                q == ring_modulus.value(),
                n == ring_modulus.width(),
                all_t.len() == tw.len(),
                forall|j2: int| 0 <= j2 < all_t.len() ==> (#[trigger] all_t[j2])@ == tw[j2],
                forall|j2: int| 0 <= j2 < all_t.len() ==> (#[trigger] all_t[j2])@.len() == n,
                mp_shape_ok(*poly_array, n_spec),
                n == n_spec,
                i < num,
                num == poly_array.num_polynomials,
                tw == trimmed_zero_words(mp_row_words(*poly_array, n_spec, i as int)),
                forall|j2: int|
                    0 <= j2 < coeffs@.len() ==> (#[trigger] coeffs@[j2]).residue@ == tw[j2]
                        && coeffs@[j2].is_residue(*ring_modulus),
            decreases t@.len(),
        {
            let ghost done = coeffs@.len() as int;
            let u = t.remove(0);
            assert(u == all_t[done]);
            match ZqElem::try_from_uint(u, ring_modulus) {
                Ok(e) => {
                    coeffs.push(e);
                },
                Err(_) => {
                    assert(words_value(tw[done]) >= q);
                    assert(!mp_row_in_range(*poly_array, n_spec, i as int, q));
                    return Err(Error::OutOfRangeConversion);
                },
            }
            proof {
                assert(t@ =~= all_t.skip(done + 1));
            }
        }
        proof {
            assert(mp_row_in_range(*poly_array, n_spec, i as int, q)) by {
                assert forall|j2: int| 0 <= j2 < tw.len() implies words_value(
                    #[trigger] tw[j2],
                ) < q by {
                    assert(coeffs@[j2].residue@ == tw[j2]);
                    assert(coeffs@[j2].is_residue(*ring_modulus));
                }
            }
            let p = Polynomial { coeffs };
            if p.coeffs@.len() > 0 {
                let last = trow[trow.len() - 1];
                assert(!last.eq_spec(&z));
                assert(last@ == tw[tw.len() - 1]);
                if words_value(last@) == 0 {
                    lemma_words_value_zero(last@);
                    assert(last@ =~= z@);
                    assert(false);
                }
                assert(p.coeffs@.last().value() != 0);
            }
        }
        out.push(Polynomial { coeffs });
        i = i + 1;
    }
    Ok(out)
}

} // verus!
