//! The degree-4 extension of the Goldilocks field.
//!
//! The extension is `F[x] / (x^4 - W)` with `W = 7`; an element is four base
//! coefficients in canonical form. The ring operations are implemented here
//! and proved against the spec functions `ext_add`, `ext_sub` and `ext_mul`.
//! Inverses use the norm map (a product of Frobenius conjugates lands in the
//! base field) and are confirmed by one multiplication at run time, as in the
//! base field.

use crate::field::{fadd, fmul, fpow, fsub, Felt, FIELD_ORDER};
use vstd::prelude::*;

verus! {

/// The extension is defined by `x^4 = W`.
pub const EXT_W: u64 = 7;

/// A primitive fourth root of unity (`2^48`), by which the Frobenius
/// endomorphism scales the coefficients.
pub const EXT_DTH_ROOT: u64 = 281474976710656;

/// The mathematical value of an extension element: four base-field values.
pub struct Ext4 {
    pub a0: int,
    pub a1: int,
    pub a2: int,
    pub a3: int,
}

pub open spec fn ext_zero() -> Ext4 {
    Ext4 { a0: 0, a1: 0, a2: 0, a3: 0 }
}

pub open spec fn ext_one() -> Ext4 {
    Ext4 { a0: 1, a1: 0, a2: 0, a3: 0 }
}

/// Embedding of a base-field value.
pub open spec fn ext_embed(x: int) -> Ext4 {
    Ext4 { a0: x, a1: 0, a2: 0, a3: 0 }
}

pub open spec fn ext_add(x: Ext4, y: Ext4) -> Ext4 {
    Ext4 {
        a0: fadd(x.a0, y.a0),
        a1: fadd(x.a1, y.a1),
        a2: fadd(x.a2, y.a2),
        a3: fadd(x.a3, y.a3),
    }
}

pub open spec fn ext_sub(x: Ext4, y: Ext4) -> Ext4 {
    Ext4 {
        a0: fsub(x.a0, y.a0),
        a1: fsub(x.a1, y.a1),
        a2: fsub(x.a2, y.a2),
        a3: fsub(x.a3, y.a3),
    }
}

/// Schoolbook multiplication reduced by `x^4 = W`.
pub open spec fn ext_mul(x: Ext4, y: Ext4) -> Ext4 {
    Ext4 {
        a0: fadd(
            fmul(x.a0, y.a0),
            fmul(
                EXT_W as int,
                fadd(fadd(fmul(x.a1, y.a3), fmul(x.a2, y.a2)), fmul(x.a3, y.a1)),
            ),
        ),
        a1: fadd(
            fadd(fmul(x.a0, y.a1), fmul(x.a1, y.a0)),
            fmul(EXT_W as int, fadd(fmul(x.a2, y.a3), fmul(x.a3, y.a2))),
        ),
        a2: fadd(
            fadd(fadd(fmul(x.a0, y.a2), fmul(x.a1, y.a1)), fmul(x.a2, y.a0)),
            fmul(fmul(EXT_W as int, x.a3), y.a3),
        ),
        a3: fadd(
            fadd(fadd(fmul(x.a0, y.a3), fmul(x.a1, y.a2)), fmul(x.a2, y.a1)),
            fmul(x.a3, y.a0),
        ),
    }
}

/// The mathematical values of a sequence of extension elements.
pub open spec fn ext_vals(s: Seq<ExtElem>) -> Seq<Ext4> {
    s.map_values(|e: ExtElem| e@)
}

/// Every element of the sequence has canonical coefficients.
pub open spec fn ext_all_wf(s: Seq<ExtElem>) -> bool {
    forall|k: int| 0 <= k < s.len() ==> (#[trigger] s[k]).wf()
}


/// The Frobenius map iterated `count` times: coefficient `i` is scaled by
/// the `(i * count)`-th power of the fourth root of unity.
pub open spec fn ext_frobenius(x: Ext4, count: nat) -> Ext4 {
    let z = fpow(EXT_DTH_ROOT as int, count);
    Ext4 {
        a0: x.a0,
        a1: fmul(x.a1, z),
        a2: fmul(x.a2, fmul(z, z)),
        a3: fmul(x.a3, fmul(fmul(z, z), z)),
    }
}

/// The product of the three Frobenius conjugates of `x`.
pub open spec fn ext_conj_product(x: Ext4) -> Ext4 {
    ext_mul(ext_mul(ext_frobenius(x, 1), ext_frobenius(x, 2)), ext_frobenius(x, 3))
}

/// The first coefficient of `x` times its conjugate product: the norm, which
/// lands in the base field.
pub open spec fn ext_norm0(x: Ext4) -> int {
    ext_mul(x, ext_conj_product(x)).a0
}

/// The candidate inverse of `x`: its conjugate product scaled by the Fermat
/// candidate inverse of its norm.
pub open spec fn ext_inverse_candidate(x: Ext4) -> Ext4 {
    ext_mul(ext_conj_product(x), ext_embed(fpow(ext_norm0(x), (FIELD_ORDER - 2) as nat)))
}

/// Both confirmations of the candidate pass: the norm's Fermat inverse and
/// the final product check. Over the true field (prime order, irreducible
/// `x^4 - W`) this holds of every nonzero element; stating that
/// unconditionally is outside the logic's reach, so contracts branch on this
/// computable condition instead.
pub open spec fn ext_inverse_ok(x: Ext4) -> bool {
    &&& fmul(ext_norm0(x), fpow(ext_norm0(x), (FIELD_ORDER - 2) as nat)) == 1
    &&& ext_mul(x, ext_inverse_candidate(x)) == ext_one()
}

/// The confirmed quotient `a / b`: `a` times the candidate inverse of `b`
/// when the confirmations pass and multiplying back recovers `a`; zero
/// otherwise. Over the true field the zero branch is reached only for a zero
/// divisor.
pub open spec fn ext_quotient(a: Ext4, b: Ext4) -> Ext4 {
    if ext_inverse_ok(b) {
        let q = ext_mul(a, ext_inverse_candidate(b));
        if ext_mul(q, b) == a {
            q
        } else {
            ext_zero()
        }
    } else {
        ext_zero()
    }
}

/// An extension element with canonical coefficients.
#[derive(Clone, Copy, Debug, PartialEq, Eq, Structural)]
pub struct ExtElem {
    pub c0: Felt,
    pub c1: Felt,
    pub c2: Felt,
    pub c3: Felt,
}

impl View for ExtElem {
    type V = Ext4;

    open spec fn view(&self) -> Ext4 {
        Ext4 { a0: self.c0@, a1: self.c1@, a2: self.c2@, a3: self.c3@ }
    }
}

impl ExtElem {
    pub open spec fn wf(self) -> bool {
        self.c0.wf() && self.c1.wf() && self.c2.wf() && self.c3.wf()
    }

    pub fn zero() -> (r: ExtElem)
        ensures
            r.wf(),
            r@ == ext_zero(),
    {
        ExtElem { c0: Felt::zero(), c1: Felt::zero(), c2: Felt::zero(), c3: Felt::zero() }
    }

    pub fn one() -> (r: ExtElem)
        ensures
            r.wf(),
            r@ == ext_one(),
    {
        ExtElem { c0: Felt::one(), c1: Felt::zero(), c2: Felt::zero(), c3: Felt::zero() }
    }

    /// Embeds a base-field element.
    pub fn from_base(x: Felt) -> (r: ExtElem)
        requires
            x.wf(),
        ensures
            r.wf(),
            r@ == ext_embed(x@),
    {
        ExtElem { c0: x, c1: Felt::zero(), c2: Felt::zero(), c3: Felt::zero() }
    }

    pub fn add(self, rhs: ExtElem) -> (r: ExtElem)
        requires
            self.wf(),
            rhs.wf(),
        ensures
            r.wf(),
            r@ == ext_add(self@, rhs@),
    {
        ExtElem {
            c0: self.c0.add(rhs.c0),
            c1: self.c1.add(rhs.c1),
            c2: self.c2.add(rhs.c2),
            c3: self.c3.add(rhs.c3),
        }
    }

    pub fn sub(self, rhs: ExtElem) -> (r: ExtElem)
        requires
            self.wf(),
            rhs.wf(),
        ensures
            r.wf(),
            r@ == ext_sub(self@, rhs@),
    {
        ExtElem {
            c0: self.c0.sub(rhs.c0),
            c1: self.c1.sub(rhs.c1),
            c2: self.c2.sub(rhs.c2),
            c3: self.c3.sub(rhs.c3),
        }
    }

    pub fn mul(self, rhs: ExtElem) -> (r: ExtElem)
        requires
            self.wf(),
            rhs.wf(),
        ensures
            r.wf(),
            r@ == ext_mul(self@, rhs@),
    {
        let w = Felt { v: EXT_W };
        let c0 = self.c0.mul(rhs.c0).add(
            w.mul(self.c1.mul(rhs.c3).add(self.c2.mul(rhs.c2)).add(self.c3.mul(rhs.c1))),
        );
        let c1 = self.c0.mul(rhs.c1).add(self.c1.mul(rhs.c0)).add(
            w.mul(self.c2.mul(rhs.c3).add(self.c3.mul(rhs.c2))),
        );
        let c2 = self.c0.mul(rhs.c2).add(self.c1.mul(rhs.c1)).add(self.c2.mul(rhs.c0)).add(
            w.mul(self.c3).mul(rhs.c3),
        );
        let c3 = self.c0.mul(rhs.c3).add(self.c1.mul(rhs.c2)).add(self.c2.mul(rhs.c1)).add(
            self.c3.mul(rhs.c0),
        );
        ExtElem { c0, c1, c2, c3 }
    }

    /// Multiplies every coefficient by a base-field scalar.
    pub fn scalar_mul(self, s: Felt) -> (r: ExtElem)
        requires
            self.wf(),
            s.wf(),
        ensures
            r.wf(),
            r@ == ext_mul(self@, ext_embed(s@)),
    {
        proof {
            lemma_scalar_mul_form(self@, s@);
        }
        ExtElem {
            c0: self.c0.mul(s),
            c1: self.c1.mul(s),
            c2: self.c2.mul(s),
            c3: self.c3.mul(s),
        }
    }

    /// The Frobenius map iterated `count` times: coefficient `i` is scaled by
    /// the `(i * count)`-th power of the fourth root of unity.
    fn repeated_frobenius(self, count: u64) -> (r: ExtElem)
        requires
            self.wf(),
        ensures
            r.wf(),
            r@ == ext_frobenius(self@, count as nat),
    {
        let z = Felt { v: EXT_DTH_ROOT }.exp_u64(count);
        let z2 = z.mul(z);
        let z3 = z2.mul(z);
        ExtElem { c0: self.c0, c1: self.c1.mul(z), c2: self.c2.mul(z2), c3: self.c3.mul(z3) }
    }

    /// Computes the multiplicative inverse through the norm map — the product
    /// of the element with its three Frobenius conjugates lies in the base
    /// field — and confirms the candidate by one multiplication. The result
    /// is pinned completely: exactly when both confirmations succeed — which
    /// they do for every nonzero element of the true field — the candidate
    /// itself is returned.
    pub fn try_inverse(self) -> (r: Option<ExtElem>)
        requires
            self.wf(),
        ensures
            ext_inverse_ok(self@) ==> r is Some && r.unwrap().wf() && r.unwrap()@
                == ext_inverse_candidate(self@),
            !ext_inverse_ok(self@) ==> r is None,
            r is Some ==> r.unwrap().wf() && ext_mul(self@, r.unwrap()@) == ext_one(),
    {
        let b1 = self.repeated_frobenius(1);
        let b2 = self.repeated_frobenius(2);
        let b3 = self.repeated_frobenius(3);
        let conj = b1.mul(b2).mul(b3);
        let norm = self.mul(conj);
        proof {
            assert(norm.c0@ == ext_norm0(self@));
        }
        match norm.c0.try_inverse() {
            None => None,
            Some(ni) => {
                let candidate = conj.scalar_mul(ni);
                let check = self.mul(candidate);
                let one = ExtElem::one();
                proof {
                    assert(candidate@ == ext_inverse_candidate(self@));
                }
                if check.c0.v == one.c0.v && check.c1.v == one.c1.v && check.c2.v == one.c2.v
                    && check.c3.v == one.c3.v {
                    proof {
                        assert(check@ == ext_one());
                    }
                    Some(candidate)
                } else {
                    proof {
                        assert(check@ != ext_one());
                    }
                    None
                }
            },
        }
    }
}

/// Embedding commutes with addition.
pub proof fn lemma_embed_add(a: int, b: int)
    ensures
        ext_add(ext_embed(a), ext_embed(b)) == ext_embed(fadd(a, b)),
{
}

/// Embedding commutes with subtraction.
pub proof fn lemma_embed_sub(a: int, b: int)
    ensures
        ext_sub(ext_embed(a), ext_embed(b)) == ext_embed(fsub(a, b)),
{
}

/// Embedding commutes with multiplication.
pub proof fn lemma_embed_mul(a: int, b: int)
    ensures
        ext_mul(ext_embed(a), ext_embed(b)) == ext_embed(fmul(a, b)),
{
    let p = FIELD_ORDER as int;
    let m = fmul(a, b);
    assert(fmul(a, 0) == 0 && fmul(0, b) == 0 && fmul(0, 0) == 0);
    assert(fadd(0, 0) == 0);
    assert(fmul(EXT_W as int, 0) == 0 && fmul(fmul(EXT_W as int, 0), 0) == 0);
    assert(fadd(fadd(fmul(a, 0), fmul(0, 0)), fmul(0, b)) == 0);
    assert(0 <= m < p);
    assert(fadd(m, 0) == m) by {
        vstd::arithmetic::div_mod::lemma_small_mod(m as nat, FIELD_ORDER as nat);
    }
}

/// Multiplying by an embedded scalar multiplies every coefficient.
proof fn lemma_scalar_mul_form(x: Ext4, s: int)
    ensures
        ext_mul(x, ext_embed(s)) == (Ext4 {
            a0: fmul(x.a0, s),
            a1: fmul(x.a1, s),
            a2: fmul(x.a2, s),
            a3: fmul(x.a3, s),
        }),
{
    let p = FIELD_ORDER as int;
    assert(fmul(x.a1, 0) == 0 && fmul(x.a2, 0) == 0 && fmul(x.a3, 0) == 0 && fmul(
        fmul(EXT_W as int, x.a3),
        0,
    ) == 0);
    assert(fadd(fadd(fmul(x.a1, 0), fmul(x.a2, 0)), fmul(x.a3, 0)) == 0);
    assert(fmul(EXT_W as int, 0) == 0);
    assert(forall|a: int| #[trigger] fadd(a % p, 0) == a % p);
    assert(forall|a: int, b: int| #[trigger] fadd(fmul(a, b), 0) == fmul(a, b));
}

} // verus!
