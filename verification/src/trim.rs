//! Removal of a trailing run of a designated sentinel value from a vector,
//! used to normalize polynomial coefficient sequences.

use vstd::prelude::*;
use vstd::std_specs::cmp::PartialEqSpec;

verus! {

/// The sequence `s` with every trailing element that compares equal to `z`
/// removed, where "compares equal" is the type's own `==`.
pub open spec fn trimmed<T: PartialEqSpec>(s: Seq<T>, z: T) -> Seq<T>
    decreases s.len(),
{
    if s.len() > 0 && s.last().eq_spec(&z) {
        trimmed(s.drop_last(), z)
    } else {
        s
    }
}

/// What it means for `r` to be `s` with its trailing run of `z` removed:
/// `r` is a prefix of `s`, everything cut off compared equal to `z`, and
/// `r` itself does not end in an element comparing equal to `z`.
pub open spec fn is_trim_of<T: PartialEqSpec>(s: Seq<T>, z: T, r: Seq<T>) -> bool {
    &&& r.len() <= s.len()
    &&& r == s.take(r.len() as int)
    &&& forall|i: int| r.len() <= i < s.len() ==> #[trigger] s[i].eq_spec(&z)
    &&& r.len() > 0 ==> !r.last().eq_spec(&z)
}

/// Trim correctness: the trimmed sequence is a prefix of the input, only
/// elements comparing equal to the sentinel are removed, they are removed
/// only from the tail, and no trailing sentinel remains.
pub proof fn lemma_trimmed_correct<T: PartialEqSpec>(s: Seq<T>, z: T)
    ensures
        is_trim_of(s, z, trimmed(s, z)),
    decreases s.len(),
{
    if s.len() > 0 && s.last().eq_spec(&z) {
        lemma_trimmed_correct(s.drop_last(), z);
        let r = trimmed(s.drop_last(), z);
        assert(s.drop_last().take(r.len() as int) =~= s.take(r.len() as int));
        assert forall|i: int| r.len() <= i < s.len() implies #[trigger] s[i].eq_spec(&z) by {
            if i < s.len() - 1 {
                assert(s.drop_last()[i].eq_spec(&z));
                assert(s.drop_last()[i] == s[i]);
            } else {
                assert(s[i] == s.last());
            }
        }
    } else {
        assert(s.take(s.len() as int) =~= s);
    }
}

/// Trim idempotence: trimming an already-trimmed sequence is a no-op.
pub proof fn lemma_trimmed_idempotent<T: PartialEqSpec>(s: Seq<T>, z: T)
    ensures
        trimmed(trimmed(s, z), z) == trimmed(s, z),
{
    lemma_trimmed_correct(s, z);
}

/// Remove the trailing run of elements equal to `trim_value` from the end
/// of `v`. Helpful for dense polynomial representations that do not work
/// properly with leading zero coefficients.
pub fn strip_trailing_value<T: PartialEqSpec + Eq>(v: Vec<T>, trim_value: T) -> (r: Vec<T>)
    requires
        T::obeys_eq_spec(),
    ensures
        r@ == trimmed(v@, trim_value),
{
    let ghost orig = v@;
    let mut v = v;
    loop
        invariant
            T::obeys_eq_spec(),
            trimmed(v@, trim_value) == trimmed(orig, trim_value),
        ensures
            v@ == trimmed(orig, trim_value),
        decreases v.len(),
    {
        let len = v.len();
        if len == 0 {
            break;
        }
        if !(v[len - 1] == trim_value) {
            assert(v@.last() == v@[len - 1]);
            break;
        }
        assert(v@.last().eq_spec(&trim_value));
        assert(v@.drop_last() =~= v@.subrange(0, len - 1));
        v.pop();
    }
    v
}

} // verus!
