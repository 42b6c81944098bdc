//! Fixed-limb multiprecision unsigned integers: a value is held as
//! little-endian 64-bit machine words, and specifications speak of the
//! mathematical integer those words denote.

use vstd::prelude::*;
use vstd::arithmetic::power2::{pow2, lemma_pow2_adds, lemma_pow2_pos, lemma2_to64, lemma2_to64_rest};

verus! {

/// The numeric base of one 64-bit machine word.
pub open spec fn word_base() -> nat {
    0x1_0000_0000_0000_0000
}

/// The unsigned integer denoted by a little-endian word sequence.
pub open spec fn words_value(s: Seq<u64>) -> nat
    decreases s.len(),
{
    if s.len() == 0 {
        0
    } else {
        s[0] as nat + word_base() * words_value(s.drop_first())
    }
}

pub proof fn lemma_pow2_word_base()
    ensures
        pow2(64) == word_base(),
{
    lemma2_to64();
    lemma2_to64_rest();
}

/// A word sequence denotes a value below the base raised to its length.
pub proof fn lemma_words_value_bound(s: Seq<u64>)
    ensures
        words_value(s) < pow2(64 * s.len()),
    decreases s.len(),
{
    lemma_pow2_word_base();
    if s.len() == 0 {
        lemma2_to64();
    } else {
        lemma_words_value_bound(s.drop_first());
        lemma_pow2_adds(64, 64 * (s.len() - 1) as nat);
        let rest = words_value(s.drop_first());
        let p = pow2(64 * (s.len() - 1) as nat);
        let b = word_base();
        assert(s[0] as nat + b * rest < b * p) by (nonlinear_arith)
            requires
                rest < p,
                (s[0] as nat) < b,
                b >= 1,
        ;
    }
}

/// Splitting a word sequence at position `k` splits its value.
pub proof fn lemma_words_value_split(s: Seq<u64>, k: int)
    requires
        0 <= k <= s.len(),
    ensures
        words_value(s) == words_value(s.take(k)) + pow2(64 * k as nat) * words_value(s.skip(k)),
    decreases k,
{
    if k == 0 {
        assert(s.take(0) =~= Seq::<u64>::empty());
        assert(s.skip(0) =~= s);
        lemma2_to64();
    } else {
        lemma_words_value_split(s.drop_first(), k - 1);
        assert(s.take(k).drop_first() =~= s.drop_first().take(k - 1));
        assert(s.skip(k) =~= s.drop_first().skip(k - 1));
        lemma_pow2_adds(64, 64 * (k - 1) as nat);
        lemma_pow2_word_base();
        let b = word_base();
        let p1 = pow2(64 * (k - 1) as nat);
        let x = words_value(s.drop_first().take(k - 1));
        let y = words_value(s.skip(k));
        assert(words_value(s.take(k)) == s[0] as nat + b * x);
        assert(words_value(s) == s[0] as nat + b * (x + p1 * y));
        assert(b * (x + p1 * y) == b * x + (b * p1) * y) by (nonlinear_arith);
    }
}

/// A word sequence denotes zero exactly when every word is zero.
pub proof fn lemma_words_value_zero(s: Seq<u64>)
    ensures
        (words_value(s) == 0) <==> (forall|i: int| 0 <= i < s.len() ==> s[i] == 0),
    decreases s.len(),
{
    if s.len() > 0 {
        lemma_words_value_zero(s.drop_first());
        if words_value(s) == 0 {
            assert forall|i: int| 0 <= i < s.len() implies s[i] == 0 by {
                if i > 0 {
                    assert(s.drop_first()[i - 1] == s[i]);
                }
            }
        } else {
            if forall|i: int| 0 <= i < s.len() ==> s[i] == 0 {
                assert forall|i: int| 0 <= i < s.drop_first().len() implies s.drop_first()[i]
                    == 0 by {
                    assert(s.drop_first()[i] == s[i + 1]);
                }
                assert(words_value(s) == 0);
            }
        }
    }
}

/// Words beyond position `k` that are all zero do not affect the value.
pub proof fn lemma_words_value_zero_tail(s: Seq<u64>, k: int)
    requires
        0 <= k <= s.len(),
        forall|i: int| k <= i < s.len() ==> s[i] == 0,
    ensures
        words_value(s) == words_value(s.take(k)),
{
    lemma_words_value_split(s, k);
    assert forall|i: int| 0 <= i < s.skip(k).len() implies s.skip(k)[i] == 0 by {
        assert(s.skip(k)[i] == s[i + k]);
    }
    lemma_words_value_zero(s.skip(k));
}

/// A single word denotes itself.
pub proof fn lemma_words_value_one(s: Seq<u64>)
    requires
        s.len() == 1,
    ensures
        words_value(s) == s[0],
{
    assert(s.drop_first() =~= Seq::<u64>::empty());
    assert(words_value(Seq::<u64>::empty()) == 0);
    assert(words_value(s) == s[0] as nat + word_base() * 0);
}

/// Appending a word adds its value at the next power of the base.
pub proof fn lemma_words_value_push(s: Seq<u64>, x: u64)
    ensures
        words_value(s.push(x)) == words_value(s) + pow2(64 * s.len()) * x,
    decreases s.len(),
{
    lemma_pow2_word_base();
    if s.len() == 0 {
        lemma_words_value_one(s.push(x));
        assert(s.push(x)[0] == x);
        lemma2_to64();
    } else {
        lemma_words_value_push(s.drop_first(), x);
        assert(s.push(x).drop_first() =~= s.drop_first().push(x));
        assert(s.push(x)[0] == s[0]);
        lemma_pow2_adds(64, 64 * (s.len() - 1) as nat);
        let b = word_base();
        let p = pow2(64 * (s.len() - 1) as nat);
        let r = words_value(s.drop_first());
        assert(b * (r + p * x) == b * r + (b * p) * x) by (nonlinear_arith);
    }
}

/// If two equally long word sequences agree above position `k` and differ
/// in `k`'s favor there, the first denotes the smaller value.
pub proof fn lemma_words_value_msb_lt(a: Seq<u64>, b: Seq<u64>, k: int)
    requires
        a.len() == b.len(),
        0 <= k < a.len(),
        a[k] < b[k],
        forall|i: int| k < i < a.len() ==> a[i] == b[i],
    ensures
        words_value(a) < words_value(b),
{
    lemma_words_value_split(a, k + 1);
    lemma_words_value_split(b, k + 1);
    assert(a.skip(k + 1) =~= b.skip(k + 1));
    assert(a.take(k + 1).take(k) =~= a.take(k));
    assert(b.take(k + 1).take(k) =~= b.take(k));
    assert(a.take(k + 1).drop_last() =~= a.take(k));
    assert(b.take(k + 1).drop_last() =~= b.take(k));
    assert(a.take(k + 1) =~= a.take(k).push(a[k]));
    assert(b.take(k + 1) =~= b.take(k).push(b[k]));
    lemma_words_value_push(a.take(k), a[k]);
    lemma_words_value_push(b.take(k), b[k]);
    lemma_words_value_bound(a.take(k));
    let p = pow2(64 * k as nat);
    let pk = pow2(64 * (k + 1) as nat);
    let ta = words_value(a.take(k));
    let tb = words_value(b.take(k));
    assert(ta + p * a[k] < tb + p * b[k]) by (nonlinear_arith)
        requires
            ta < p,
            0 <= tb,
            (a[k] as nat) < (b[k] as nat),
            p >= 1,
    {
        lemma_pow2_pos(64 * k as nat);
    }
    let sa = words_value(a.skip(k + 1));
    assert(words_value(a.take(k + 1)) + pk * sa < words_value(b.take(k + 1)) + pk * sa);
}

/// An unsigned integer held as a fixed number of little-endian machine words.
#[derive(Debug)]
pub struct FixedUint {
    /// Little-endian 64-bit words.
    pub limbs: Vec<u64>,
}

impl View for FixedUint {
    type V = Seq<u64>;

    open spec fn view(&self) -> Seq<u64> {
        self.limbs@
    }
}

impl PartialEq for FixedUint {
    fn eq(&self, other: &FixedUint) -> (r: bool) {
        let n = self.limbs.len();
        if n != other.limbs.len() {
            return false;
        }
        let mut i: usize = 0;
        while i < n
            invariant
                i <= n,
                n == self@.len(),
                n == other@.len(),
                forall|j: int| 0 <= j < i ==> self@[j] == other@[j],
            decreases n - i,
        {
            if self.limbs[i] != other.limbs[i] {
                return false;
            }
            i = i + 1;
        }
        proof {
            assert(self@ =~= other@);
        }
        true
    }
}

impl Eq for FixedUint {}

impl vstd::std_specs::cmp::PartialEqSpecImpl for FixedUint {
    open spec fn obeys_eq_spec() -> bool {
        true
    }

    open spec fn eq_spec(&self, other: &FixedUint) -> bool {
        self@ == other@
    }
}

impl FixedUint {
    /// The unsigned integer this fixed-limb value denotes.
    pub open spec fn value(self) -> nat {
        words_value(self@)
    }

    /// The number of limbs.
    pub open spec fn width(self) -> nat {
        self@.len()
    }

    /// The all-zero integer of width `n`.
    pub fn zero(n: usize) -> (r: Self)
        ensures
            r.width() == n,
            r.value() == 0,
            forall|i: int| 0 <= i < n ==> r@[i] == 0,
    {
        let mut limbs: Vec<u64> = Vec::new();
        let mut i: usize = 0;
        while i < n
            invariant
                i <= n,
                limbs@.len() == i,
                forall|j: int| 0 <= j < i ==> limbs@[j] == 0,
            decreases n - i,
        {
            limbs.push(0);
            i = i + 1;
        }
        proof {
            lemma_words_value_zero(limbs@);
        }
        FixedUint { limbs }
    }

    /// The width-`n` integer with the value of one machine word.
    pub fn from_u64(x: u64, n: usize) -> (r: Self)
        requires
            n >= 1,
        ensures
            r.width() == n,
            r.value() == x,
    {
        let mut limbs: Vec<u64> = Vec::new();
        limbs.push(x);
        let mut i: usize = 1;
        while i < n
            invariant
                1 <= i <= n,
                limbs@.len() == i,
                limbs@[0] == x,
                forall|j: int| 1 <= j < i ==> limbs@[j] == 0,
            decreases n - i,
        {
            limbs.push(0);
            i = i + 1;
        }
        proof {
            lemma_words_value_zero_tail(limbs@, 1);
            lemma_words_value_one(limbs@.take(1));
            assert(limbs@.take(1)[0] == x);
        }
        FixedUint { limbs }
    }

    /// The width-`count` integer read from `words[start .. start + count]`.
    pub fn from_words(words: &Vec<u64>, start: usize, count: usize) -> (r: Self)
        requires
            start + count <= words@.len(),
        ensures
            r@ == words@.subrange(start as int, start + count),
    {
        let total = words.len();
        let mut limbs: Vec<u64> = Vec::new();
        let mut i: usize = 0;
        while i < count
            invariant
                i <= count,
                start + count <= words@.len(),
                total == words@.len(),
                limbs@.len() == i,
                forall|j: int| 0 <= j < i ==> limbs@[j] == words@[start + j],
            decreases count - i,
        {
            assert(start + i < total);
            limbs.push(words[start + i]);
            i = i + 1;
        }
        proof {
            assert(limbs@ =~= words@.subrange(start as int, start + count));
        }
        FixedUint { limbs }
    }

    /// Whether the denoted value is zero.
    pub fn is_zero(&self) -> (b: bool)
        ensures
            b <==> self.value() == 0,
    {
        let n = self.limbs.len();
        let mut i: usize = 0;
        let mut all_zero = true;
        while i < n
            invariant
                i <= n,
                n == self@.len(),
                all_zero <==> (forall|j: int| 0 <= j < i ==> self@[j] == 0),
            decreases n - i,
        {
            if self.limbs[i] != 0 {
                all_zero = false;
            }
            i = i + 1;
        }
        proof {
            lemma_words_value_zero(self@);
        }
        all_zero
    }

    /// Whether `self` denotes a smaller value than `other` of the same width.
    pub fn lt(&self, other: &Self) -> (b: bool)
        requires
            self.width() == other.width(),
        ensures
            b <==> self.value() < other.value(),
    {
        let n = self.limbs.len();
        let mut i: usize = n;
        while i > 0
            invariant
                i <= n,
                n == self@.len(),
                n == other@.len(),
                forall|j: int| i <= j < n ==> self@[j] == other@[j],
            decreases i,
        {
            i = i - 1;
            let x = self.limbs[i];
            let y = other.limbs[i];
            if x < y {
                proof {
                    lemma_words_value_msb_lt(self@, other@, i as int);
                }
                return true;
            }
            if y < x {
                proof {
                    lemma_words_value_msb_lt(other@, self@, i as int);
                }
                return false;
            }
        }
        proof {
            assert(self@ =~= other@);
        }
        false
    }

    /// Whether the denoted value is at least the machine word `x`.
    pub fn ge_u64(&self, x: u64) -> (b: bool)
        ensures
            b <==> self.value() >= x,
    {
        let n = self.limbs.len();
        if n == 0 {
            return x == 0;
        }
        let mut i: usize = 1;
        while i < n
            invariant
                1 <= i <= n,
                n == self@.len(),
                forall|j: int| 1 <= j < i ==> self@[j] == 0,
            decreases n - i,
        {
            if self.limbs[i] != 0 {
                proof {
                    lemma_words_value_split(self@, i as int);
                    lemma_words_value_bound(self@.take(i as int));
                    let sk = self@.skip(i as int);
                    assert(sk[0] == self@[i as int]);
                    assert(words_value(sk) >= sk[0] as nat);
                    let p = pow2(64 * i as nat);
                    lemma_pow2_adds(64, 64 * (i - 1) as nat);
                    lemma_pow2_pos(64 * (i - 1) as nat);
                    lemma_pow2_word_base();
                    assert(p >= word_base()) by (nonlinear_arith)
                        requires
                            p == word_base() * pow2(64 * (i - 1) as nat),
                            pow2(64 * (i - 1) as nat) >= 1,
                            word_base() >= 0,
                    ;
                    assert(p * words_value(sk) >= p) by (nonlinear_arith)
                        requires
                            words_value(sk) >= 1,
                            p >= 1,
                    ;
                }
                return true;
            }
            i = i + 1;
        }
        proof {
            lemma_words_value_zero_tail(self@, 1);
            lemma_words_value_one(self@.take(1));
            assert(self@.take(1)[0] == self@[0]);
        }
        self.limbs[0] >= x
    }

    /// `self - x` for a machine word `x` not exceeding the denoted value.
    pub fn sub_u64(&self, x: u64) -> (r: Self)
        requires
            x as nat <= self.value(),
        ensures
            r.width() == self.width(),
            r.value() == self.value() - x,
    {
        let n = self.limbs.len();
        let mut out: Vec<u64> = Vec::new();
        let mut borrow: bool = false;
        let mut i: usize = 0;
        while i < n
            invariant
                i <= n,
                n == self@.len(),
                out@.len() == i,
                i == 0 ==> !borrow,
                words_value(out@) + (if i > 0 {
                    x as nat
                } else {
                    0
                }) == words_value(self@.take(i as int)) + (if borrow {
                    pow2(64 * i as nat)
                } else {
                    0
                }),
            decreases n - i,
        {
            let cur = self.limbs[i];
            let need: u64 = if i == 0 {
                x
            } else {
                if borrow {
                    1
                } else {
                    0
                }
            };
            let d: u64;
            let new_borrow: bool;
            if cur >= need {
                d = cur - need;
                new_borrow = false;
            } else {
                d = cur + (u64::MAX - need) + 1;
                new_borrow = true;
            }
            proof {
                lemma2_to64();
                lemma_pow2_word_base();
                lemma_pow2_adds(64, 64 * i as nat);
                lemma_words_value_push(out@, d);
                assert(self@.take(i + 1) =~= self@.take(i as int).push(cur));
                lemma_words_value_push(self@.take(i as int), cur);
                let p = pow2(64 * i as nat) as int;
                let b = word_base() as int;
                assert(pow2(64 * (i + 1) as nat) == b * p);
                let ov = words_value(out@) as int;
                let tv = words_value(self@.take(i as int)) as int;
                assert(words_value(out@.push(d)) == ov + p * d);
                assert(words_value(self@.take(i + 1)) == tv + p * cur);
                let nd = need as int;
                let dd = d as int;
                assert(dd == cur - nd + if new_borrow {
                    b
                } else {
                    0
                });
                assert(p * dd == p * cur - p * nd + if new_borrow {
                    p * b
                } else {
                    0
                }) by (nonlinear_arith)
                    requires
                        dd == cur - nd + if new_borrow {
                            b
                        } else {
                            0
                        },
                ;
                if i == 0 {
                    assert(p == 1);
                    assert(p * nd == x as int);
                } else {
                    if borrow {
                        assert(nd == 1);
                        assert(p * nd == p);
                    } else {
                        assert(nd == 0);
                        assert(p * nd == 0) by (nonlinear_arith)
                            requires
                                nd == 0,
                        ;
                    }
                }
                assert(ov + p * dd + x as int == tv + p * cur + if new_borrow {
                    b * p
                } else {
                    0
                });
            }
            out.push(d);
            borrow = new_borrow;
            i = i + 1;
        }
        proof {
            assert(self@.take(n as int) =~= self@);
            if borrow {
                lemma_words_value_bound(out@);
                lemma_words_value_bound(self@);
                assert(false);
            }
            if n == 0 {
                assert(self.value() == 0);
            }
        }
        FixedUint { limbs: out }
    }
}

} // verus!
