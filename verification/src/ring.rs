//! Ring elements (residues for an explicit fixed-limb modulus) and
//! polynomials over them.

use vstd::prelude::*;
use crate::error::Error;
use crate::mp::FixedUint;

verus! {

/// The residue that a small signed integer denotes modulo `q`: the integer
/// itself when nonnegative, its additive complement otherwise.
pub open spec fn signed_residue(v: i64, q: nat) -> nat
    recommends
        v >= 0 ==> (v as nat) < q,
        v < 0 ==> -(v as int) <= q as int,
{
    if v >= 0 {
        v as nat
    } else {
        (q - (-(v as int))) as nat
    }
}

/// An element of `Z_q`, held as a fixed-limb residue; validity is always
/// relative to an explicit modulus of the same width.
pub struct ZqElem {
    /// The residue, with the same limb count as the ring's modulus.
    pub residue: FixedUint,
}

impl ZqElem {
    /// The numeric value of the residue.
    pub open spec fn value(self) -> nat {
        self.residue.value()
    }

    /// The limb count of the residue.
    pub open spec fn width(self) -> nat {
        self.residue.width()
    }

    /// Whether this element is a valid residue for modulus `m`.
    pub open spec fn is_residue(self, m: FixedUint) -> bool {
        self.width() == m.width() && self.value() < m.value()
    }

    /// Fallible conversion from a fixed-limb integer of the modulus's own
    /// width: fails exactly when the value is not a valid residue for `m`.
    pub fn try_from_uint(u: FixedUint, m: &FixedUint) -> (r: Result<ZqElem, Error>)
        requires
            u.width() == m.width(),
        ensures
            r is Ok <==> u.value() < m.value(),
            r matches Ok(e) ==> e.residue@ == u@,
            r is Err ==> r == Err::<ZqElem, Error>(Error::OutOfRangeConversion),
    {
        if u.lt(m) {
            Ok(ZqElem { residue: u })
        } else {
            Err(Error::OutOfRangeConversion)
        }
    }

    /// Total conversion from a small signed integer: the ring is assumed to
    /// contain every centered representative handed in, so the magnitude
    /// must not exceed the modulus value.
    pub fn from_signed(v: i64, m: &FixedUint) -> (r: ZqElem)
        requires
            v >= 0 ==> (v as nat) < m.value(),
            v < 0 ==> -(v as int) <= m.value() as int,
        ensures
            r.is_residue(*m),
            r.value() == signed_residue(v, m.value()),
    {
        if v >= 0 {
            proof {
                if m@.len() == 0 {
                    assert(m.value() == 0);
                }
            }
            ZqElem { residue: FixedUint::from_u64(v as u64, m.limbs.len()) }
        } else {
            let a: u64 = (-(v as i128)) as u64;
            ZqElem { residue: m.sub_u64(a) }
        }
    }
}

/// A polynomial over the ring: entry `i` of the coefficient vector is the
/// degree-`i` coefficient.
pub struct Polynomial {
    /// Coefficients in ascending degree order.
    pub coeffs: Vec<ZqElem>,
}

impl Polynomial {
    /// Every coefficient is a valid residue for modulus `m`.
    pub open spec fn wf(self, m: FixedUint) -> bool {
        forall|i: int|
            0 <= i < self.coeffs@.len() ==> #[trigger] self.coeffs@[i].is_residue(m)
    }

    /// No meaningless trailing zero coefficient; an all-zero polynomial is
    /// an empty coefficient sequence.
    pub open spec fn normalized(self) -> bool {
        self.coeffs@.len() > 0 ==> self.coeffs@.last().value() != 0
    }
}

} // verus!
