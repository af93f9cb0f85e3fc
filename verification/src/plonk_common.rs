//! Shared proving-side utilities: oracle metadata, the vanishing polynomial
//! `Z_H(x) = x^n - 1` and its precomputation on a coset, the first Lagrange
//! basis polynomial, and challenge-powered reduction of constraint values.

use crate::builder::{
    lemma_extends_target, lemma_extends_trans, lemma_targets_hold_extends, target_vals,
    targets_hold, CircuitBuilder, ExtensionTarget,
};
use crate::extension::{ext_add, ext_embed, ext_mul, ext_one, ext_sub, ext_zero, Ext4, ExtElem};
use crate::field::{
    fadd, felt_vals, fmul, fpow, fsub, lemma_fmul_assoc, lemma_fmul_comm, lemma_fpow_mul,
    lemma_fpow_one_exp, lemma_fpow_zero_exp, Felt, COSET_SHIFT, FIELD_ORDER, TWO_ADICITY,
    TWO_ADIC_GENERATOR,
};
use vstd::arithmetic::power2::pow2;
use vstd::prelude::*;

verus! {

/// Number of salt wires appended to blinded polynomials.
pub const SALT_SIZE: usize = 4;

/// Facts about one oracle that the FRI protocol needs.
#[derive(Clone, Copy, Debug, PartialEq, Eq, Structural)]
pub struct FriOracleInfo {
    pub blinding: bool,
}

/// The Merkle-tree index and blinding flag of one committed set of
/// polynomials.
#[derive(Clone, Copy, Debug, PartialEq, Eq, Structural)]
pub struct PlonkOracle {
    pub index: usize,
    pub blinding: bool,
}

impl PlonkOracle {
    pub fn constants_sigmas() -> (r: PlonkOracle)
        ensures
            r.index == 0 && !r.blinding,
    {
        PlonkOracle { index: 0, blinding: false }
    }

    pub fn wires() -> (r: PlonkOracle)
        ensures
            r.index == 1 && r.blinding,
    {
        PlonkOracle { index: 1, blinding: true }
    }

    pub fn zs_partial_products() -> (r: PlonkOracle)
        ensures
            r.index == 2 && r.blinding,
    {
        PlonkOracle { index: 2, blinding: true }
    }

    pub fn quotient() -> (r: PlonkOracle)
        ensures
            r.index == 3 && r.blinding,
    {
        PlonkOracle { index: 3, blinding: true }
    }

    pub fn as_fri_oracle(&self) -> (r: FriOracleInfo)
        ensures
            r.blinding == self.blinding,
    {
        FriOracleInfo { blinding: self.blinding }
    }
}

/// Blinded polynomials carry `SALT_SIZE` salt values; unblinded ones none.
pub fn salt_size(salted: bool) -> (r: usize)
    ensures
        r == (if salted {
            SALT_SIZE as int
        } else {
            0
        }),
{
    if salted {
        SALT_SIZE
    } else {
        0
    }
}

/// Evaluates the polynomial vanishing on the order-`n` multiplicative
/// subgroup: `Z(x) = x^n - 1`.
pub fn eval_zero_poly(n: usize, x: Felt) -> (r: Felt)
    requires
        x.wf(),
    ensures
        r.wf(),
        r@ == fsub(fpow(x@, n as nat), 1),
{
    x.exp_u64(n as u64).sub(Felt::one())
}

/// Evaluates the Lagrange basis `L_1`, with `L_1(1) = 1` and `L_1(x) = 0` at
/// every other member of the order-`n` multiplicative subgroup.
///
/// For `x != 1` the result is pinned to the quotient `(x^n - 1) * d^(P-2)`
/// with `d = n * (x - 1)`, guarded by the Fermat confirmation of `d`'s
/// inverse — which succeeds for every nonzero `d` of the prime field; in
/// particular `r * (n * (x - 1)) = x^n - 1` whenever the confirmation holds.
pub fn eval_l_1(n: usize, x: Felt) -> (r: Felt)
    requires
        x.wf(),
        1 <= n < FIELD_ORDER,
        x@ == 1 || fmul(n as int, fsub(x@, 1)) != 0,
    ensures
        r.wf(),
        x@ == 1 ==> r@ == 1,
        x@ != 1 ==> r@ == ({
            let d = fmul(n as int, fsub(x@, 1));
            if fmul(d, fpow(d, (FIELD_ORDER - 2) as nat)) == 1 {
                fmul(fsub(fpow(x@, n as nat), 1), fpow(d, (FIELD_ORDER - 2) as nat))
            } else {
                0
            }
        }),
        x@ != 1 ==> (fmul(r@, fmul(n as int, fsub(x@, 1))) == fsub(fpow(x@, n as nat), 1) || r@
            == 0),
        (x@ != 1 && fpow(x@, n as nat) == 1) ==> r@ == 0,
{
    if x.v == 1 {
        // The quotient formula would divide zero by zero here.
        return Felt::one();
    }
    let z = eval_zero_poly(n, x);
    let d = Felt::from_canonical_u64(n as u64).mul(x.sub(Felt::one()));
    match d.try_inverse() {
        None => Felt::zero(),
        Some(dinv) => {
            let r = z.mul(dinv);
            proof {
                if fpow(x@, n as nat) == 1 {
                    assert(z@ == 0);
                    assert(0 * dinv@ == 0) by (nonlinear_arith);
                    assert(fmul(0, dinv@) == 0);
                }
                lemma_fmul_assoc(z@, dinv@, d@);
                lemma_fmul_comm(dinv@, d@);
                lemma_fmul_comm(d@, dinv@);
                vstd::arithmetic::div_mod::lemma_mod_bound(fpow(x@, n as nat) - 1,
                    FIELD_ORDER as int);
                vstd::arithmetic::div_mod::lemma_small_mod((fsub(fpow(x@, n as nat),
                    1)) as nat, FIELD_ORDER as nat);
                assert(fmul(z@, 1) == z@) by {
                    vstd::arithmetic::div_mod::lemma_small_mod(z@ as nat, FIELD_ORDER as nat);
                }
            }
            r
        },
    }
}

/// Precomputed evaluations of `Z_H(x) = x^n - 1` on the coset `g K`, where
/// `H` is the order-`n` subgroup, `K` the order-`n * rate` subgroup with
/// generator `w`, and `g` the coset shift. Since `(g w^i)^n - 1` depends only
/// on `i` modulo `rate`, one value and one inverse are held per residue.
pub struct ZeroPolyOnCoset {
    /// `n = |H|`, embedded in the field.
    pub n: Felt,
    /// `rate = |K| / |H|`.
    pub rate: usize,
    /// `evals[i] = g^n * v^i - 1`, with `v = w^n` an order-`rate` root.
    pub evals: Vec<Felt>,
    /// Multiplicative inverses of `evals`.
    pub inverses: Vec<Felt>,
    /// Logarithm of the subgroup order.
    pub n_log: Ghost<nat>,
    /// The value `g^n`.
    pub g_pow_n: Ghost<int>,
    /// The value `v = w^n`.
    pub root: Ghost<int>,
}

impl ZeroPolyOnCoset {
    pub open spec fn eval_value(self, k: int) -> int {
        fsub(fmul(self.g_pow_n@, fpow(self.root@, k as nat)), 1)
    }

    /// The evals with zero entries replaced by one: the sequence the batched
    /// inversion runs on.
    pub open spec fn safe_evals(self) -> Seq<int> {
        felt_vals(self.evals@).map_values(
            |v: int|
                if v == 0 {
                    1int
                } else {
                    v
                },
        )
    }

    pub open spec fn wf(self) -> bool {
        &&& self.rate >= 1
        &&& self.evals@.len() == self.rate
        &&& self.inverses@.len() == self.rate
        &&& self.n.wf()
        &&& self.n_log@ <= 63
        &&& self.n@ == pow2(self.n_log@) as int
        &&& self.g_pow_n@ == fpow(COSET_SHIFT as int, pow2(self.n_log@))
        &&& 0 <= self.root@ < FIELD_ORDER
        &&& fpow(self.root@, self.rate as nat) == 1
        &&& forall|k: int|
            0 <= k < self.rate ==> (#[trigger] self.evals@[k]).wf() && self.evals@[k]@
                == self.eval_value(k)
        &&& forall|k: int|
            0 <= k < self.rate ==> (#[trigger] self.inverses@[k]).wf() && (fmul(self.evals@[k]@,
                self.inverses@[k]@) == 1 || self.inverses@[k]@ == 0)
    }

    /// Precomputes the `rate` values of `Z_H` on the coset and their
    /// inverses, the latter in one batched pass.
    pub fn new(n_log: usize, rate_bits: usize) -> (r: ZeroPolyOnCoset)
        requires
            n_log <= 63,
            rate_bits <= 31,
        ensures
            r.wf(),
            r.rate == pow2(rate_bits as nat),
            r.n_log@ == n_log,
            r.root@ == fpow(TWO_ADIC_GENERATOR as int, pow2((TWO_ADICITY - rate_bits) as nat)),
            crate::field::batch_inverse_ok(r.safe_evals()) ==> forall|k: int|
                0 <= k < r.rate && r.evals@[k]@ != 0 ==> fmul(r.evals@[k]@,
                    #[trigger] r.inverses@[k]@) == 1,
    {
        let g_pow_n = Felt::from_canonical_u64(COSET_SHIFT).exp_power_of_2(n_log);
        let root = Felt::from_canonical_u64(TWO_ADIC_GENERATOR).exp_power_of_2(
            TWO_ADICITY - rate_bits,
        );
        proof {
            vstd::arithmetic::power2::lemma_pow2_pos(rate_bits as nat);
            lemma_fpow_zero_exp(root@);
            crate::field::lemma_two_adic_generator_order();
            crate::field::lemma_fpow_fpow(TWO_ADIC_GENERATOR as int,
                pow2((TWO_ADICITY - rate_bits) as nat), pow2(rate_bits as nat));
            vstd::arithmetic::power2::lemma_pow2_adds((TWO_ADICITY - rate_bits) as nat,
                rate_bits as nat);
            assert(fpow(root@, pow2(rate_bits as nat)) == 1);
        }
        let rate = crate::field::pow2_usize(rate_bits);
        let one = Felt::one();
        let mut evals: Vec<Felt> = Vec::new();
        let mut cur = one;
        let mut k: usize = 0;
        while k < rate
            invariant
                g_pow_n.wf(),
                root.wf(),
                cur.wf(),
                k <= rate,
                evals@.len() == k,
                cur@ == fpow(root@, k as nat),
                forall|m: int|
                    0 <= m < k ==> (#[trigger] evals@[m]).wf() && evals@[m]@ == fsub(
                        fmul(g_pow_n@, fpow(root@, m as nat)), 1),
            decreases rate - k,
        {
            evals.push(g_pow_n.mul(cur).sub(Felt::one()));
            proof {
                lemma_fpow_mul(root@, k as nat, 1);
                lemma_fpow_one_exp(root@);
            }
            cur = cur.mul(root);
            k += 1;
        }
        // Batch-invert; entries equal to zero are replaced by one beforehand
        // so the single inversion cannot be spoiled, and get inverse zero.
        let mut safe: Vec<Felt> = Vec::new();
        let mut k2: usize = 0;
        while k2 < rate
            invariant
                evals@.len() == rate,
                k2 <= rate,
                safe@.len() == k2,
                forall|m: int| 0 <= m < evals@.len() ==> (#[trigger] evals@[m]).wf(),
                forall|m: int|
                    0 <= m < k2 ==> (#[trigger] safe@[m]).wf() && safe@[m]@ == (if evals@[m]@ == 0 {
                        1int
                    } else {
                        evals@[m]@
                    }),
            decreases rate - k2,
        {
            if evals[k2].v == 0 {
                safe.push(Felt::one());
            } else {
                safe.push(evals[k2]);
            }
            k2 += 1;
        }
        let batch = Felt::batch_multiplicative_inverse(&safe);
        let mut inverses: Vec<Felt> = Vec::new();
        match batch {
            None => {
                // The run-time check inside the batched inversion failed; a
                // prime field order rules this out, but the logic cannot.
                let mut k3: usize = 0;
                while k3 < rate
                    invariant
                        k3 <= rate,
                        inverses@.len() == k3,
                        forall|m: int|
                            0 <= m < k3 ==> (#[trigger] inverses@[m]).wf() && inverses@[m]@ == 0,
                    decreases rate - k3,
                {
                    inverses.push(Felt::zero());
                    k3 += 1;
                }
            },
            Some(invs) => {
                let mut k4: usize = 0;
                while k4 < rate
                    invariant
                        evals@.len() == rate,
                        safe@.len() == rate,
                        invs@.len() == rate,
                        k4 <= rate,
                        inverses@.len() == k4,
                        forall|m: int| 0 <= m < evals@.len() ==> (#[trigger] evals@[m]).wf(),
                        forall|m: int|
                            0 <= m < rate ==> (#[trigger] safe@[m]).wf() && safe@[m]@ == (
                            if evals@[m]@ == 0 {
                                1int
                            } else {
                                evals@[m]@
                            }),
                        forall|m: int|
                            0 <= m < rate ==> (#[trigger] invs@[m]).wf() && fmul(safe@[m]@,
                                invs@[m]@) == 1,
                        forall|m: int|
                            0 <= m < k4 ==> (#[trigger] inverses@[m]).wf() && (evals@[m]@ != 0
                                ==> fmul(evals@[m]@, inverses@[m]@) == 1) && (evals@[m]@ == 0
                                ==> inverses@[m]@ == 0),
                    decreases rate - k4,
                {
                    if evals[k4].v == 0 {
                        inverses.push(Felt::zero());
                    } else {
                        inverses.push(invs[k4]);
                    }
                    k4 += 1;
                }
            },
        }
        proof {
            assert(felt_vals(safe@) =~= felt_vals(evals@).map_values(
                |v: int|
                    if v == 0 {
                        1int
                    } else {
                        v
                    },
            ));
        }
        let n = Felt { v: crate::field::pow2_u64(n_log as u64) };
        proof {
            crate::field::lemma_pow2_le_order(0);
            vstd::arithmetic::power2::lemma2_to64();
            vstd::arithmetic::power2::lemma2_to64_rest();
            if n_log < 63 {
                vstd::arithmetic::power2::lemma_pow2_strictly_increases(n_log as nat, 63);
            }
        }
        ZeroPolyOnCoset {
            n,
            rate,
            evals,
            inverses,
            n_log: Ghost(n_log as nat),
            g_pow_n: Ghost(g_pow_n@),
            root: Ghost(root@),
        }
    }

    /// Returns `Z_H(g * w^i)` for any index: `Z_H` depends on `i` only
    /// modulo `rate`, since the table's root has order dividing `rate`.
    pub fn eval(&self, i: usize) -> (r: Felt)
        requires
            self.wf(),
        ensures
            r.wf(),
            r@ == self.eval_value(i as int),
            r@ == self.evals@[(i % self.rate) as int]@,
    {
        proof {
            crate::field::lemma_fpow_periodic(self.root@, self.rate as nat, i as nat);
        }
        self.evals[i % self.rate]
    }

    /// Returns `1 / Z_H(g * w^i)`: exactly the table entry the constructor
    /// filled, which times `eval(i)` is one whenever the constructor's
    /// batched inversion was confirmed (it is, for a prime field order, since
    /// no table value is zero). The zero value marks an unconfirmed entry.
    pub fn eval_inverse(&self, i: usize) -> (r: Felt)
        requires
            self.wf(),
        ensures
            r.wf(),
            r@ == self.inverses@[(i % self.rate) as int]@,
            fmul(self.eval_value(i as int), r@) == 1 || r@ == 0,
    {
        proof {
            crate::field::lemma_fpow_periodic(self.root@, self.rate as nat, i as nat);
        }
        self.inverses[i % self.rate]
    }

    /// Returns `L_1(x) = Z_H(x) / (n * (x - 1))` with `x = w^i`. The caller
    /// must rule out `x = 1`, where the divisor vanishes. The result is
    /// pinned to the quotient `eval(i) * d^(P-2)` with `d = n * (x - 1)`,
    /// guarded by the Fermat confirmation of `d`'s inverse, which succeeds
    /// for every nonzero `d` of the prime field.
    pub fn eval_l1(&self, i: usize, x: Felt) -> (r: Felt)
        requires
            self.wf(),
            x.wf(),
            fmul(self.n@, fsub(x@, 1)) != 0,
        ensures
            r.wf(),
            r@ == ({
                let d = fmul(self.n@, fsub(x@, 1));
                if fmul(d, fpow(d, (FIELD_ORDER - 2) as nat)) == 1 {
                    fmul(self.eval_value(i as int), fpow(d, (FIELD_ORDER - 2) as nat))
                } else {
                    0
                }
            }),
            fmul(r@, fmul(self.n@, fsub(x@, 1))) == self.eval_value(i as int) || r@ == 0,
    {
        let e = self.eval(i);
        let d = self.n.mul(x.sub(Felt::one()));
        match d.try_inverse() {
            None => Felt::zero(),
            Some(dinv) => {
                let r = e.mul(dinv);
                proof {
                    lemma_fmul_assoc(e@, dinv@, d@);
                    lemma_fmul_comm(dinv@, d@);
                    lemma_fmul_comm(d@, dinv@);
                    vstd::arithmetic::div_mod::lemma_mod_bound(fmul(self.g_pow_n@, fpow(self.root@,
                        i as nat)) - 1, FIELD_ORDER as int);
                    assert(fmul(e@, 1) == e@) by {
                        vstd::arithmetic::div_mod::lemma_small_mod(e@ as nat, FIELD_ORDER as nat);
                    }
                }
                r
            },
        }
    }
}

/// Challenge-powered fold of a sequence of values:
/// `t[0] + alpha * (t[1] + alpha * (...))`.
pub open spec fn reduce_spec(terms: Seq<int>, alpha: int) -> int
    decreases terms.len(),
{
    if terms.len() == 0 {
        0
    } else {
        fadd(fmul(reduce_spec(terms.drop_first(), alpha), alpha), terms[0])
    }
}

/// Peeling one element off the front of a reduction.
proof fn lemma_reduce_step(s: Seq<int>, alpha: int, lo: int, hi: int)
    requires
        0 <= lo < hi <= s.len(),
    ensures
        reduce_spec(s.subrange(lo, hi), alpha) == fadd(
            fmul(reduce_spec(s.subrange(lo + 1, hi), alpha), alpha),
            s[lo],
        ),
{
    let t = s.subrange(lo, hi);
    assert(t.drop_first() =~= s.subrange(lo + 1, hi));
}

/// Reduces constraint values with powers of one challenge.
pub fn reduce_with_powers(terms: &Vec<Felt>, alpha: Felt) -> (r: Felt)
    requires
        crate::field::all_wf(terms@),
        alpha.wf(),
    ensures
        r.wf(),
        r@ == reduce_spec(felt_vals(terms@), alpha@),
{
    let vals = Ghost(felt_vals(terms@));
    let mut sum = Felt::zero();
    let mut j: usize = terms.len();
    proof {
        assert(vals@.subrange(j as int, terms@.len() as int) =~= Seq::<int>::empty());
    }
    while j > 0
        invariant
            crate::field::all_wf(terms@),
            alpha.wf(),
            vals@ == felt_vals(terms@),
            j <= terms@.len(),
            sum.wf(),
            sum@ == reduce_spec(vals@.subrange(j as int, terms@.len() as int), alpha@),
        decreases j,
    {
        j -= 1;
        proof {
            lemma_reduce_step(vals@, alpha@, j as int, terms@.len() as int);
        }
        sum = sum.mul(alpha).add(terms[j]);
    }
    proof {
        assert(vals@.subrange(0, terms@.len() as int) =~= vals@);
    }
    sum
}

/// Reduces the same terms with each of several challenges at once.
pub fn reduce_with_powers_multi(terms: &Vec<Felt>, alphas: &Vec<Felt>) -> (r: Vec<Felt>)
    requires
        crate::field::all_wf(terms@),
        crate::field::all_wf(alphas@),
    ensures
        r@.len() == alphas@.len(),
        forall|k: int|
            0 <= k < r@.len() ==> (#[trigger] r@[k]).wf() && r@[k]@ == reduce_spec(
                felt_vals(terms@),
                alphas@[k]@,
            ),
{
    let vals = Ghost(felt_vals(terms@));
    let mut cumul: Vec<Felt> = Vec::new();
    let mut m: usize = 0;
    while m < alphas.len()
        invariant
            m <= alphas@.len(),
            cumul@.len() == m,
            forall|k: int| 0 <= k < m ==> (#[trigger] cumul@[k]).wf() && cumul@[k]@ == 0,
        decreases alphas@.len() - m,
    {
        cumul.push(Felt::zero());
        m += 1;
    }
    let mut j: usize = terms.len();
    proof {
        assert(vals@.subrange(j as int, terms@.len() as int) =~= Seq::<int>::empty());
    }
    while j > 0
        invariant
            crate::field::all_wf(terms@),
            crate::field::all_wf(alphas@),
            vals@ == felt_vals(terms@),
            j <= terms@.len(),
            cumul@.len() == alphas@.len(),
            forall|k: int|
                0 <= k < cumul@.len() ==> (#[trigger] cumul@[k]).wf() && cumul@[k]@ == reduce_spec(
                    vals@.subrange(j as int, terms@.len() as int),
                    alphas@[k]@,
                ),
        decreases j,
    {
        j -= 1;
        let term = terms[j];
        let mut k: usize = 0;
        while k < cumul.len()
            invariant
                crate::field::all_wf(terms@),
                crate::field::all_wf(alphas@),
                vals@ == felt_vals(terms@),
                0 <= j < terms@.len(),
                term.wf(),
                term@ == vals@[j as int],
                cumul@.len() == alphas@.len(),
                k <= cumul@.len(),
                forall|m2: int|
                    0 <= m2 < k ==> (#[trigger] cumul@[m2]).wf() && cumul@[m2]@ == reduce_spec(
                        vals@.subrange(j as int, terms@.len() as int),
                        alphas@[m2]@,
                    ),
                forall|m2: int|
                    k <= m2 < cumul@.len() ==> (#[trigger] cumul@[m2]).wf() && cumul@[m2]@
                        == reduce_spec(
                        vals@.subrange(j as int + 1, terms@.len() as int),
                        alphas@[m2]@,
                    ),
            decreases cumul@.len() - k,
        {
            proof {
                lemma_reduce_step(vals@, alphas@[k as int]@, j as int, terms@.len() as int);
            }
            let updated = cumul[k].mul(alphas[k]).add(term);
            cumul.set(k, updated);
            k += 1;
        }
        proof {
            assert(j < terms@.len());
        }
    }
    proof {
        assert(vals@.subrange(0, terms@.len() as int) =~= vals@);
    }
    cumul
}

/// Extension-field counterpart of `reduce_spec`.
pub open spec fn ext_reduce_spec(terms: Seq<Ext4>, alpha: Ext4) -> Ext4
    decreases terms.len(),
{
    if terms.len() == 0 {
        ext_zero()
    } else {
        ext_add(ext_mul(ext_reduce_spec(terms.drop_first(), alpha), alpha), terms[0])
    }
}

/// Peeling one element off the front of an extension reduction.
proof fn lemma_ext_reduce_step(s: Seq<Ext4>, alpha: Ext4, lo: int, hi: int)
    requires
        0 <= lo < hi <= s.len(),
    ensures
        ext_reduce_spec(s.subrange(lo, hi), alpha) == ext_add(
            ext_mul(ext_reduce_spec(s.subrange(lo + 1, hi), alpha), alpha),
            s[lo],
        ),
{
    let t = s.subrange(lo, hi);
    assert(t.drop_first() =~= s.subrange(lo + 1, hi));
}

/// Reduces extension targets with powers of a challenge, symbolically inside
/// a recursion circuit.
pub fn reduce_with_powers_ext_recursive(
    builder: &mut CircuitBuilder,
    terms: &Vec<ExtensionTarget>,
    alpha: ExtensionTarget,
) -> (r: ExtensionTarget)
    requires
        old(builder).wf(),
        old(builder).valid_target(alpha),
        targets_hold(*old(builder), terms@, target_vals(*old(builder), terms@), u64::MAX as int),
    ensures
        final(builder).wf(),
        final(builder).extends(*old(builder)),
        final(builder).valid_target(r),
        final(builder).value_spec(r) == ext_reduce_spec(
            target_vals(*old(builder), terms@),
            old(builder).value_spec(alpha),
        ),
{
    let w = Ghost(target_vals(*builder, terms@));
    let a = Ghost(builder.value_spec(alpha));
    let b0 = Ghost(*builder);
    let mut sum = builder.zero_extension();
    proof {
        lemma_targets_hold_extends(*builder, b0@, terms@, w@, u64::MAX as int);
        lemma_extends_target(*builder, b0@, alpha);
        assert(w@.subrange(terms@.len() as int, terms@.len() as int) =~= Seq::<Ext4>::empty());
    }
    let mut j: usize = terms.len();
    while j > 0
        invariant
            builder.wf(),
            builder.extends(b0@),
            targets_hold(*builder, terms@, w@, u64::MAX as int),
            builder.valid_target(alpha),
            builder.value_spec(alpha) == a@,
            j <= terms@.len(),
            builder.valid_target(sum),
            builder.value_spec(sum) == ext_reduce_spec(
                w@.subrange(j as int, terms@.len() as int),
                a@,
            ),
        decreases j,
    {
        j -= 1;
        proof {
            lemma_ext_reduce_step(w@, a@, j as int, terms@.len() as int);
        }
        let pre = Ghost(*builder);
        let new_sum = builder.mul_add_extension(sum, alpha, terms[j]);
        proof {
            lemma_extends_trans(*builder, pre@, b0@);
            lemma_targets_hold_extends(*builder, pre@, terms@, w@, u64::MAX as int);
            lemma_extends_target(*builder, pre@, alpha);
        }
        sum = new_sum;
    }
    proof {
        assert(w@.subrange(0, terms@.len() as int) =~= w@);
    }
    sum
}

/// The divisor of the recursive `L_1` evaluation: `n * x - n` as the
/// recursion circuit states it.
pub open spec fn l1_denominator(n: int, x: Ext4) -> Ext4 {
    ext_add(
        ext_mul(ext_embed(n), ext_mul(x, ext_one())),
        ext_mul(ext_embed(n), ext_embed((FIELD_ORDER - 1) as int)),
    )
}

/// Evaluates the Lagrange basis `L_1(x) = (x^n - 1) / (n * (x - 1))`
/// symbolically, given `x` and a precomputed `x^n`.
///
/// Assumes `x != 1`: the divisor must not vanish. The returned target's value
/// is pinned to the confirmed quotient of `x^n - 1` by the divisor, whose
/// run-time confirmations succeed for an irreducible extension whenever
/// `x != 1`; in particular the value times the divisor's value gives back
/// `x^n - 1` whenever they do.
pub fn eval_l_1_recursively(
    builder: &mut CircuitBuilder,
    n: usize,
    x: ExtensionTarget,
    x_pow_n: ExtensionTarget,
) -> (r: ExtensionTarget)
    requires
        old(builder).wf(),
        n < FIELD_ORDER,
        old(builder).valid_target(x),
        old(builder).valid_target(x_pow_n),
    ensures
        final(builder).wf(),
        final(builder).extends(*old(builder)),
        final(builder).valid_target(r),
        final(builder).value_spec(r) == crate::extension::ext_quotient(
            ext_sub(old(builder).value_spec(x_pow_n), ext_one()),
            l1_denominator(n as int, old(builder).value_spec(x)),
        ),
        ext_mul(final(builder).value_spec(r), l1_denominator(n as int, old(builder).value_spec(x)))
            == ext_sub(old(builder).value_spec(x_pow_n), ext_one()) || final(builder).value_spec(r)
            == ext_zero(),
{
    let b0 = Ghost(*builder);
    let one = builder.one_extension();
    let pre_a = Ghost(*builder);
    proof {
        lemma_extends_target(*builder, b0@, x);
        lemma_extends_target(*builder, b0@, x_pow_n);
    }
    let neg_one = builder.constant_extension(ExtElem::from_base(Felt { v: FIELD_ORDER - 1 }));
    let pre1 = Ghost(*builder);
    proof {
        lemma_extends_trans(*builder, pre_a@, b0@);
        lemma_extends_target(*builder, pre_a@, x);
        lemma_extends_target(*builder, pre_a@, x_pow_n);
        lemma_extends_target(*builder, pre_a@, one);
    }
    let zero_poly_eval = builder.sub_extension(x_pow_n, one);
    let pre2 = Ghost(*builder);
    proof {
        lemma_extends_trans(*builder, pre1@, b0@);
        lemma_extends_target(*builder, pre1@, x);
        lemma_extends_target(*builder, pre1@, neg_one);
        lemma_extends_target(*builder, pre1@, one);
    }
    let nf = Felt::from_canonical_u64(n as u64);
    let denominator = builder.arithmetic_extension(nf, nf, x, one, neg_one);
    let pre3 = Ghost(*builder);
    proof {
        lemma_extends_trans(*builder, pre2@, b0@);
        lemma_extends_trans(*builder, pre3@, pre2@);
        lemma_extends_target(*builder, pre2@, zero_poly_eval);
    }
    let r = builder.div_extension(zero_poly_eval, denominator);
    proof {
        lemma_extends_trans(*builder, pre3@, b0@);
    }
    r
}

} // verus!
