//! The BFV scheme's public scaling parameter `delta = floor(q / t)`,
//! computed by exact big-integer division and packed into a fixed-limb
//! integer.

use vstd::prelude::*;
use vstd::arithmetic::power2::{pow2, lemma_pow2_pos};
use crate::error::Error;
use crate::mp::{FixedUint, lemma_words_value_bound, lemma_words_value_push, lemma_words_value_split, lemma_words_value_zero, lemma_words_value_zero_tail, words_value};

verus! {

/// Relies on crypto_bigint's `Uint::div_rem`: the returned words denote the
/// quotient of the exact integer division of a four-limb unsigned value
/// (little-endian words) by a nonzero single-word divisor.
#[verifier::external_body]
fn div_words_by_word(q: &Vec<u64>, t: u64) -> (r: Vec<u64>)
    requires
        q@.len() == 4,
        t != 0,
    ensures
        r@.len() == 4,
        words_value(r@) == words_value(q@) / t as nat,
{
    let arr: [u64; 4] = [q[0], q[1], q[2], q[3]];
    let value = crypto_bigint::Uint::<4>::from_words(arr);
    let divisor = crypto_bigint::NonZero::<crypto_bigint::Uint<4>>::new_unwrap(
        crypto_bigint::Uint::<4>::from_u64(t),
    );
    let quotient = value.div_rem(&divisor).0;
    quotient.to_words().to_vec()
}

/// Calculate the `delta` parameter (`floor(q / t)`) of the BFV encryption
/// scheme from the ciphertext coefficient modulus `q` (a four-limb value)
/// and the plaintext modulus `t`, packed into an `n`-limb integer.
///
/// A zero plaintext modulus is rejected before any division is attempted,
/// and a target width too narrow to hold the true quotient is rejected
/// rather than silently truncated.
pub fn bfv_delta(coeff_modulus: &FixedUint, plaintext_modulus: u64, n: usize) -> (r: Result<
    FixedUint,
    Error,
>)
    requires
        coeff_modulus.width() == 4,
    ensures
        plaintext_modulus == 0 ==> r == Err::<FixedUint, Error>(Error::ZeroModulus),
        plaintext_modulus != 0 ==> {
            let d = coeff_modulus.value() / plaintext_modulus as nat;
            &&& (r is Ok <==> d < pow2(64 * n as nat))
            &&& (r matches Ok(u) ==> u.width() == n && u.value() == d)
            &&& (r is Err ==> r == Err::<FixedUint, Error>(Error::PreconditionViolation))
        },
{
    if plaintext_modulus == 0 {
        return Err(Error::ZeroModulus);
    }
    let quotient = div_words_by_word(&coeff_modulus.limbs, plaintext_modulus);
    let ghost d = words_value(quotient@);
    if n < 4 {
        let mut k: usize = n;
        while k < 4
            invariant
                n <= k <= 4,
                n < 4,
                quotient@.len() == 4,
                plaintext_modulus != 0,
                d == words_value(quotient@),
                d == coeff_modulus.value() / plaintext_modulus as nat,
                forall|k2: int| n <= k2 < k ==> quotient@[k2] == 0,
            decreases 4 - k,
        {
            if quotient[k] != 0 {
                proof {
                    lemma_words_value_split(quotient@, n as int);
                    let sk = quotient@.skip(n as int);
                    assert(sk[k - n] == quotient@[k as int]);
                    lemma_words_value_zero(sk);
                    let p = pow2(64 * n as nat);
                    lemma_pow2_pos(64 * n as nat);
                    assert(p * words_value(sk) >= p) by (nonlinear_arith)
                        requires
                            words_value(sk) >= 1,
                            p >= 1,
                    ;
                }
                return Err(Error::PreconditionViolation);
            }
            k = k + 1;
        }
        let out = FixedUint::from_words(&quotient, 0, n);
        proof {
            lemma_words_value_zero_tail(quotient@, n as int);
            assert(out@ =~= quotient@.take(n as int));
            lemma_words_value_bound(out@);
        }
        Ok(out)
    } else {
        let mut limbs = quotient;
        let mut k: usize = 4;
        while k < n
            invariant
                4 <= k <= n,
                limbs@.len() == k,
                words_value(limbs@) == d,
            decreases n - k,
        {
            proof {
                lemma_words_value_push(limbs@, 0u64);
            }
            limbs.push(0);
            k = k + 1;
        }
        proof {
            lemma_words_value_bound(limbs@);
        }
        Ok(FixedUint { limbs })
    }
}

} // verus!
