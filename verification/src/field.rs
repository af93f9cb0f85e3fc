//! The Goldilocks prime field, `P = 2^64 - 2^32 + 1`.
//!
//! Elements are kept in canonical form (a `u64` strictly below `P`), so the
//! mathematical value of an element is its representative. Ring operations
//! are implemented here and proved against the modular-arithmetic spec
//! functions `fadd`, `fsub`, `fmul` and `fpow`. Multiplicative inverses are
//! computed by Fermat exponentiation and confirmed at run time; their
//! contracts pin the result to the confirmed candidate, so they hold — and
//! force real work of every implementation — without assuming the primality
//! of `P` in the logic.

use vstd::arithmetic::div_mod::{
    lemma_mod_add_multiples_vanish, lemma_mul_mod_noop_general, lemma_mul_mod_noop_left,
    lemma_mul_mod_noop_right, lemma_small_mod,
};
use vstd::arithmetic::mul::lemma_mul_is_associative;
use vstd::arithmetic::power::{
    lemma_pow1, lemma_pow_adds, lemma_pow_mod_noop, lemma_pow_multiplies, lemma_square_is_pow2,
    pow,
};
use vstd::arithmetic::power2::{lemma_pow2_adds, pow2};
use vstd::prelude::*;

verus! {

/// Order of the Goldilocks field: `2^64 - 2^32 + 1`.
pub const FIELD_ORDER: u64 = 18446744069414584321;

/// The multiplicative-group generator used as the coset shift for low-degree
/// extensions.
pub const COSET_SHIFT: u64 = 14293326489335486720;

/// A generator of the multiplicative subgroup of order `2^32` (the field's
/// full two-adicity).
pub const TWO_ADIC_GENERATOR: u64 = 7277203076849721926;

/// Two-adicity of the multiplicative group: `2^32` divides `P - 1`.
pub const TWO_ADICITY: usize = 32;

/// Addition in the field.
pub open spec fn fadd(a: int, b: int) -> int {
    (a + b) % (FIELD_ORDER as int)
}

/// Subtraction in the field.
pub open spec fn fsub(a: int, b: int) -> int {
    (a - b) % (FIELD_ORDER as int)
}

/// Multiplication in the field.
pub open spec fn fmul(a: int, b: int) -> int {
    (a * b) % (FIELD_ORDER as int)
}

/// Exponentiation in the field.
pub open spec fn fpow(b: int, e: nat) -> int {
    pow(b, e) % (FIELD_ORDER as int)
}

/// `2^k` as a machine word.
pub fn pow2_u64(k: u64) -> (r: u64)
    requires
        k < 64,
    ensures
        r == pow2(k as nat),
{
    let mut acc: u64 = 1;
    let mut j: u64 = 0;
    proof {
        vstd::arithmetic::power2::lemma2_to64();
    }
    while j < k
        invariant
            j <= k,
            k < 64,
            acc == pow2(j as nat),
        decreases k - j,
    {
        proof {
            lemma_pow2_adds(j as nat, 1);
            vstd::arithmetic::power2::lemma2_to64();
            vstd::arithmetic::power2::lemma2_to64_rest();
            if ((j + 1) as nat) < 63 {
                vstd::arithmetic::power2::lemma_pow2_strictly_increases((j + 1) as nat, 63);
            }
        }
        acc = acc * 2;
        j += 1;
    }
    acc
}

/// `2^k` as a machine-size word.
pub fn pow2_usize(k: usize) -> (r: usize)
    requires
        k <= 31,
    ensures
        r == pow2(k as nat),
{
    let mut acc: usize = 1;
    let mut j: usize = 0;
    proof {
        vstd::arithmetic::power2::lemma2_to64();
    }
    while j < k
        invariant
            j <= k,
            k <= 31,
            acc == pow2(j as nat),
        decreases k - j,
    {
        proof {
            lemma_pow2_adds(j as nat, 1);
            vstd::arithmetic::power2::lemma2_to64();
            if ((j + 1) as nat) < 31 {
                vstd::arithmetic::power2::lemma_pow2_strictly_increases((j + 1) as nat, 31);
            }
        }
        acc = acc * 2;
        j += 1;
    }
    acc
}

/// Powers of two up to `2^32` are canonical field values.
pub proof fn lemma_pow2_le_order(b: nat)
    requires
        b <= 32,
    ensures
        pow2(b) < FIELD_ORDER,
{
    vstd::arithmetic::power2::lemma2_to64();
    if b < 32 {
        vstd::arithmetic::power2::lemma_pow2_strictly_increases(b, 32);
    }
}

/// Product of the first `k` values of a sequence, in the field.
pub open spec fn prefix_product(s: Seq<int>, k: int) -> int
    decreases k,
{
    if k <= 0 {
        1
    } else {
        fmul(prefix_product(s, k - 1), s[k - 1])
    }
}

/// The batched inversion of a sequence succeeds: the Fermat inverse of the
/// total product passes its confirmation. In the prime field this holds
/// exactly when no entry is zero.
pub open spec fn batch_inverse_ok(s: Seq<int>) -> bool {
    let total = prefix_product(s, s.len() as int);
    fmul(total, fpow(total, (FIELD_ORDER - 2) as nat)) == 1
}

/// The mathematical values of a sequence of field elements.
pub open spec fn felt_vals(s: Seq<Felt>) -> Seq<int> {
    s.map_values(|f: Felt| f@)
}

/// Every element of the sequence is canonical.
pub open spec fn all_wf(s: Seq<Felt>) -> bool {
    forall|k: int| 0 <= k < s.len() ==> (#[trigger] s[k]).wf()
}

/// A Goldilocks field element in canonical form.
#[derive(Clone, Copy, Debug, PartialEq, Eq, Structural)]
pub struct Felt {
    pub v: u64,
}

impl View for Felt {
    type V = int;

    open spec fn view(&self) -> int {
        self.v as int
    }
}

impl Felt {
    /// A field element is well formed when its representative is canonical.
    pub open spec fn wf(self) -> bool {
        self.v < FIELD_ORDER
    }

    pub fn from_canonical_u64(v: u64) -> (r: Felt)
        requires
            v < FIELD_ORDER,
        ensures
            r.wf(),
            r@ == v as int,
    {
        Felt { v }
    }

    pub fn to_canonical_u64(self) -> (r: u64)
        ensures
            r == self.v,
    {
        self.v
    }

    pub fn zero() -> (r: Felt)
        ensures
            r.wf(),
            r@ == 0,
    {
        Felt { v: 0 }
    }

    pub fn one() -> (r: Felt)
        ensures
            r.wf(),
            r@ == 1,
    {
        Felt { v: 1 }
    }

    pub fn add(self, rhs: Felt) -> (r: Felt)
        requires
            self.wf(),
            rhs.wf(),
        ensures
            r.wf(),
            r@ == fadd(self@, rhs@),
    {
        let s: u128 = self.v as u128 + rhs.v as u128;
        let m: u128 = s % (FIELD_ORDER as u128);
        Felt { v: m as u64 }
    }

    pub fn sub(self, rhs: Felt) -> (r: Felt)
        requires
            self.wf(),
            rhs.wf(),
        ensures
            r.wf(),
            r@ == fsub(self@, rhs@),
    {
        let s: u128 = self.v as u128 + (FIELD_ORDER - rhs.v) as u128;
        let m: u128 = s % (FIELD_ORDER as u128);
        proof {
            lemma_mod_add_multiples_vanish(self@ - rhs@, FIELD_ORDER as int);
        }
        Felt { v: m as u64 }
    }

    pub fn mul(self, rhs: Felt) -> (r: Felt)
        requires
            self.wf(),
            rhs.wf(),
        ensures
            r.wf(),
            r@ == fmul(self@, rhs@),
    {
        proof {
            assert((self.v as int) * (rhs.v as int) < (FIELD_ORDER as int) * (FIELD_ORDER as int))
                by (nonlinear_arith)
                requires
                    self.v < FIELD_ORDER,
                    rhs.v < FIELD_ORDER,
            ;
        }
        let s: u128 = self.v as u128 * rhs.v as u128;
        let m: u128 = s % (FIELD_ORDER as u128);
        Felt { v: m as u64 }
    }

    /// Raises the element to the power `2^power_log` by repeated squaring.
    pub fn exp_power_of_2(self, power_log: usize) -> (r: Felt)
        requires
            self.wf(),
        ensures
            r.wf(),
            r@ == fpow(self@, pow2(power_log as nat)),
    {
        let mut acc = self;
        let mut j: usize = 0;
        proof {
            vstd::arithmetic::power2::lemma2_to64();
            lemma_pow1(self@);
            lemma_small_mod(self.v as nat, FIELD_ORDER as nat);
        }
        while j < power_log
            invariant
                self.wf(),
                acc.wf(),
                j <= power_log,
                acc@ == fpow(self@, pow2(j as nat)),
            decreases power_log - j,
        {
            proof {
                lemma_fpow_mul(self@, pow2(j as nat), pow2(j as nat));
                lemma_pow2_adds(j as nat, 1);
                vstd::arithmetic::power2::lemma2_to64();
            }
            acc = acc.mul(acc);
            j += 1;
        }
        acc
    }

    /// Raises the element to an arbitrary power by square and multiply.
    pub fn exp_u64(self, power: u64) -> (r: Felt)
        requires
            self.wf(),
        ensures
            r.wf(),
            r@ == fpow(self@, power as nat),
    {
        let mut result = Felt::one();
        let mut base = self;
        let mut rem: u64 = power;
        proof {
            lemma_fpow_one_left(self@, power as nat);
        }
        while rem > 0
            invariant
                result.wf(),
                base.wf(),
                fmul(result@, fpow(base@, rem as nat)) == fpow(self@, power as nat),
            decreases rem,
        {
            if rem % 2 == 1 {
                proof {
                    lemma_fpow_pull_one(result@, base@, rem as nat);
                }
                result = result.mul(base);
                rem = rem - 1;
            } else {
                proof {
                    lemma_fpow_square(base@, (rem / 2) as nat);
                }
                base = base.mul(base);
                rem = rem / 2;
            }
        }
        proof {
            lemma_fpow_zero_exp(base@);
            lemma_small_mod(result.v as nat, FIELD_ORDER as nat);
        }
        result
    }

    /// The Fermat candidate inverse, `a^(P-2)`.
    pub open spec fn inverse_candidate(self) -> int {
        fpow(self@, (FIELD_ORDER - 2) as nat)
    }

    /// The candidate passes its confirmation: `a * a^(P-2) = 1`. For a prime
    /// `P` this holds of every nonzero element; stating that unconditionally
    /// would need the primality of `P` in the logic, so contracts branch on
    /// this computable condition instead.
    pub open spec fn inverse_ok(self) -> bool {
        fmul(self@, self.inverse_candidate()) == 1
    }

    /// Computes the multiplicative inverse by Fermat exponentiation
    /// (`a^(P-2)`) and confirms the candidate by one multiplication. The
    /// result is pinned completely: exactly when the confirmation succeeds —
    /// which it does for every nonzero element of the prime field — the
    /// candidate itself is returned.
    pub fn try_inverse(self) -> (r: Option<Felt>)
        requires
            self.wf(),
        ensures
            self.inverse_ok() ==> r is Some && r.unwrap().wf() && r.unwrap()@
                == self.inverse_candidate(),
            !self.inverse_ok() ==> r is None,
            r is Some ==> r.unwrap().wf() && fmul(self@, r.unwrap()@) == 1,
            self@ == 0 ==> r is None,
    {
        let candidate = self.exp_u64(FIELD_ORDER - 2);
        let check = self.mul(candidate);
        proof {
            if self@ == 0 {
                assert(0 * candidate@ == 0) by (nonlinear_arith);
                assert(fmul(self@, candidate@) == 0);
            }
        }
        if check.v == 1 {
            Some(candidate)
        } else {
            None
        }
    }

    /// Inverts every entry of a slice in one batched pass (Montgomery's
    /// trick): one field inversion plus three multiplications per entry.
    /// Succeeds exactly when the single Fermat inversion of the running
    /// product is confirmed, which it is whenever no entry is zero in the
    /// prime field; in particular it fails whenever an entry is zero.
    pub fn batch_multiplicative_inverse(xs: &Vec<Felt>) -> (r: Option<Vec<Felt>>)
        requires
            forall|i: int| 0 <= i < xs@.len() ==> (#[trigger] xs@[i]).wf(),
        ensures
            r is Some <==> batch_inverse_ok(felt_vals(xs@)),
            r is Some ==> {
                &&& r.unwrap()@.len() == xs@.len()
                &&& forall|i: int|
                    0 <= i < xs@.len() ==> (#[trigger] r.unwrap()@[i]).wf() && fmul(
                        xs@[i]@,
                        r.unwrap()@[i]@,
                    ) == 1
            },
    {
        let n = xs.len();
        // Cumulative products: prefixes[k] is the product of the first k entries.
        let mut prefixes: Vec<Felt> = Vec::new();
        prefixes.push(Felt::one());
        let mut k: usize = 0;
        while k < n
            invariant
                n == xs@.len(),
                forall|i: int| 0 <= i < xs@.len() ==> (#[trigger] xs@[i]).wf(),
                prefixes@.len() == k + 1,
                k <= n,
                forall|i: int| 0 <= i <= k ==> (#[trigger] prefixes@[i]).wf(),
                forall|i: int|
                    0 <= i <= k ==> (#[trigger] prefixes@[i])@ == prefix_product(
                        felt_vals(xs@),
                        i,
                    ),
            decreases n - k,
        {
            let next = prefixes[k].mul(xs[k]);
            prefixes.push(next);
            k += 1;
        }
        let total_inv_opt = prefixes[n].try_inverse();
        match total_inv_opt {
            None => None,
            Some(total_inv) => {
                proof {
                    lemma_fmul_comm(prefixes@[n as int]@, total_inv@);
                }
                let mut out: Vec<Felt> = Vec::with_capacity(n);
                let mut cur = total_inv;
                let mut j: usize = n;
                // Walking backwards, `cur` always inverts `prefixes[j]`.
                while j > 0
                    invariant
                        n == xs@.len(),
                        forall|i: int| 0 <= i < xs@.len() ==> (#[trigger] xs@[i]).wf(),
                        prefixes@.len() == n + 1,
                        forall|i: int| 0 <= i <= n ==> (#[trigger] prefixes@[i]).wf(),
                        forall|i: int|
                            0 <= i <= n ==> (#[trigger] prefixes@[i])@ == prefix_product(
                                felt_vals(xs@),
                                i,
                            ),
                        j <= n,
                        cur.wf(),
                        fmul(cur@, prefixes@[j as int]@) == 1,
                        out@.len() == n - j,
                        forall|i: int|
                            j <= i < n ==> (#[trigger] out@[n - 1 - i]).wf() && fmul(
                                xs@[i]@,
                                out@[n - 1 - i]@,
                            ) == 1,
                    decreases j,
                {
                    j -= 1;
                    let inv_j = cur.mul(prefixes[j]);
                    proof {
                        lemma_batch_step(cur@, prefixes@[j as int]@, xs@[j as int]@);
                    }
                    out.push(inv_j);
                    cur = cur.mul(xs[j]);
                }
                // The inverses were produced in reverse order.
                let mut fwd: Vec<Felt> = Vec::with_capacity(n);
                let mut m: usize = 0;
                while m < n
                    invariant
                        n == xs@.len(),
                        out@.len() == n,
                        forall|i: int|
                            0 <= i < n ==> (#[trigger] out@[n - 1 - i]).wf() && fmul(
                                xs@[i]@,
                                out@[n - 1 - i]@,
                            ) == 1,
                        m <= n,
                        fwd@.len() == m,
                        forall|i: int|
                            0 <= i < m ==> (#[trigger] fwd@[i]).wf() && fmul(xs@[i]@, fwd@[i]@)
                                == 1,
                    decreases n - m,
                {
                    fwd.push(out[n - 1 - m]);
                    m += 1;
                }
                Some(fwd)
            },
        }
    }
}

/// One step of the batched-inverse walk: if `cur` inverts `pre * x`, then
/// `cur * pre` inverts `x` and `cur * x` inverts `pre`.
proof fn lemma_batch_step(cur: int, pre: int, x: int)
    requires
        fmul(cur, fmul(pre, x)) == 1,
    ensures
        fmul(x, fmul(cur, pre)) == 1,
        fmul(fmul(cur, x), pre) == 1,
{
    lemma_fmul_assoc(cur, pre, x);
    assert(fmul(fmul(cur, pre), x) == 1);
    lemma_fmul_comm(fmul(cur, pre), x);
    lemma_fmul_comm(pre, x);
    assert(fmul(cur, fmul(x, pre)) == 1);
    lemma_fmul_assoc(cur, x, pre);
}

/// Commutativity of field multiplication.
pub proof fn lemma_fmul_comm(a: int, b: int)
    ensures
        fmul(a, b) == fmul(b, a),
{
}

/// Associativity of field multiplication.
pub proof fn lemma_fmul_assoc(a: int, b: int, c: int)
    ensures
        fmul(fmul(a, b), c) == fmul(a, fmul(b, c)),
{
    let p = FIELD_ORDER as int;
    lemma_mul_mod_noop_left(a * b, c, p);
    lemma_mul_mod_noop_right(a, b * c, p);
    lemma_mul_is_associative(a, b, c);
}

/// `b^0 = 1` in the field.
pub proof fn lemma_fpow_zero_exp(b: int)
    ensures
        fpow(b, 0) == 1,
{
    assert(pow(b, 0) == 1) by {
        reveal(pow);
    }
    lemma_small_mod(1nat, FIELD_ORDER as nat);
}

/// `b^1 = b` in the field, for canonical `b`.
pub proof fn lemma_fpow_one_exp(b: int)
    requires
        0 <= b < FIELD_ORDER as int,
    ensures
        fpow(b, 1) == b,
{
    lemma_pow1(b);
    lemma_small_mod(b as nat, FIELD_ORDER as nat);
}

/// Multiplying powers of a common base adds the exponents.
pub proof fn lemma_fpow_mul(b: int, e1: nat, e2: nat)
    ensures
        fmul(fpow(b, e1), fpow(b, e2)) == fpow(b, (e1 + e2) as nat),
{
    lemma_mul_mod_noop_general(pow(b, e1), pow(b, e2), FIELD_ORDER as int);
    lemma_pow_adds(b, e1, e2);
}

/// `(r * b) * b^(e-1) = r * b^e` in the field, for `e >= 1`.
pub proof fn lemma_fpow_pull_one(r: int, b: int, e: nat)
    requires
        e >= 1,
    ensures
        fmul(fmul(r, b), fpow(b, (e - 1) as nat)) == fmul(r, fpow(b, e)),
{
    let p = FIELD_ORDER as int;
    lemma_pow_adds(b, 1, (e - 1) as nat);
    lemma_pow1(b);
    assert(pow(b, e) == b * pow(b, (e - 1) as nat));
    lemma_mul_mod_noop_general(r * b, pow(b, (e - 1) as nat), p);
    assert(fmul(fmul(r, b), fpow(b, (e - 1) as nat)) == (r * b * pow(b, (e - 1) as nat)) % p);
    lemma_mul_mod_noop_general(r, pow(b, e), p);
    assert(fmul(r, fpow(b, e)) == (r * pow(b, e)) % p);
    assert(r * b * pow(b, (e - 1) as nat) == r * pow(b, e)) by {
        lemma_mul_is_associative(r, b, pow(b, (e - 1) as nat));
    }
}

/// Squaring the base doubles the exponent: `(b*b)^k = b^(2k)` in the field.
pub proof fn lemma_fpow_square(b: int, k: nat)
    ensures
        fpow(fmul(b, b), k) == fpow(b, 2 * k),
{
    let p = FIELD_ORDER as int;
    lemma_square_is_pow2(b);
    lemma_pow_mod_noop(b * b, k, p);
    assert(pow(fmul(b, b), k) % p == pow(b * b, k) % p);
    lemma_pow_multiplies(b, 2, k);
    assert(pow(pow(b, 2), k) == pow(b, 2 * k));
}


/// `b^(e1*e2) = (b^e1)^e2` in the field.
pub proof fn lemma_fpow_fpow(b: int, e1: nat, e2: nat)
    ensures
        fpow(fpow(b, e1), e2) == fpow(b, e1 * e2),
{
    lemma_pow_mod_noop(pow(b, e1), e2, FIELD_ORDER as int);
    lemma_pow_multiplies(b, e1, e2);
}

/// Powers of a root of unity of order `r` depend on the exponent only modulo
/// `r`.
pub proof fn lemma_fpow_periodic(v: int, r: nat, i: nat)
    requires
        r >= 1,
        fpow(v, r) == 1,
    ensures
        fpow(v, i) == fpow(v, (i % r) as nat),
{
    let q = i / r;
    let s = i % r;
    vstd::arithmetic::div_mod::lemma_fundamental_div_mod(i as int, r as int);
    assert(i == q * r + s);
    lemma_fpow_mul(v, (q * r) as nat, s as nat);
    assert(fmul(fpow(v, (q * r) as nat), fpow(v, s as nat)) == fpow(v, i));
    lemma_fpow_fpow(v, r, q as nat);
    assert(r * q == q * r) by (nonlinear_arith);
    assert(fpow(fpow(v, r), q as nat) == fpow(v, (q * r) as nat));
    assert(pow(1, q as nat) == 1) by {
        vstd::arithmetic::power::lemma1_pow(q as nat);
    }
    lemma_small_mod(1nat, FIELD_ORDER as nat);
    assert(fpow(v, (q * r) as nat) == 1);
    lemma_fpow_one_left(v, s as nat);
}

/// The two-adic generator's `2^32`-th power is one — the fact behind the
/// periodicity of the coset tables — checked by 32 concrete squarings.
pub proof fn lemma_two_adic_generator_order()
    ensures
        fpow(TWO_ADIC_GENERATOR as int, pow2(32)) == 1,
{
    let g = TWO_ADIC_GENERATOR as int;
    vstd::arithmetic::power2::lemma2_to64();
    lemma_fpow_one_exp(g);
    assert(fpow(g, pow2(0)) == g);
    lemma_fpow_mul(g, pow2(0), pow2(0));
    vstd::arithmetic::power2::lemma_pow2_unfold(1);
    assert(fmul(7277203076849721926, 7277203076849721926) == 3524815499551269279);
    assert(fpow(g, pow2(1)) == 3524815499551269279);
    lemma_fpow_mul(g, pow2(1), pow2(1));
    vstd::arithmetic::power2::lemma_pow2_unfold(2);
    assert(fmul(3524815499551269279, 3524815499551269279) == 1905180297017055339);
    assert(fpow(g, pow2(2)) == 1905180297017055339);
    lemma_fpow_mul(g, pow2(2), pow2(2));
    vstd::arithmetic::power2::lemma_pow2_unfold(3);
    assert(fmul(1905180297017055339, 1905180297017055339) == 2530564950562219707);
    assert(fpow(g, pow2(3)) == 2530564950562219707);
    lemma_fpow_mul(g, pow2(3), pow2(3));
    vstd::arithmetic::power2::lemma_pow2_unfold(4);
    assert(fmul(2530564950562219707, 2530564950562219707) == 2147253751702802259);
    assert(fpow(g, pow2(4)) == 2147253751702802259);
    lemma_fpow_mul(g, pow2(4), pow2(4));
    vstd::arithmetic::power2::lemma_pow2_unfold(5);
    assert(fmul(2147253751702802259, 2147253751702802259) == 4969973714567017225);
    assert(fpow(g, pow2(5)) == 4969973714567017225);
    lemma_fpow_mul(g, pow2(5), pow2(5));
    vstd::arithmetic::power2::lemma_pow2_unfold(6);
    assert(fmul(4969973714567017225, 4969973714567017225) == 3757607247483852735);
    assert(fpow(g, pow2(6)) == 3757607247483852735);
    lemma_fpow_mul(g, pow2(6), pow2(6));
    vstd::arithmetic::power2::lemma_pow2_unfold(7);
    assert(fmul(3757607247483852735, 3757607247483852735) == 8877499657461974390);
    assert(fpow(g, pow2(7)) == 8877499657461974390);
    lemma_fpow_mul(g, pow2(7), pow2(7));
    vstd::arithmetic::power2::lemma_pow2_unfold(8);
    assert(fmul(8877499657461974390, 8877499657461974390) == 2709866199236980323);
    assert(fpow(g, pow2(8)) == 2709866199236980323);
    lemma_fpow_mul(g, pow2(8), pow2(8));
    vstd::arithmetic::power2::lemma_pow2_unfold(9);
    assert(fmul(2709866199236980323, 2709866199236980323) == 5936499541590631774);
    assert(fpow(g, pow2(9)) == 5936499541590631774);
    lemma_fpow_mul(g, pow2(9), pow2(9));
    vstd::arithmetic::power2::lemma_pow2_unfold(10);
    assert(fmul(5936499541590631774, 5936499541590631774) == 8124823329697072476);
    assert(fpow(g, pow2(10)) == 8124823329697072476);
    lemma_fpow_mul(g, pow2(10), pow2(10));
    vstd::arithmetic::power2::lemma_pow2_unfold(11);
    assert(fmul(8124823329697072476, 8124823329697072476) == 6553637399136210105);
    assert(fpow(g, pow2(11)) == 6553637399136210105);
    lemma_fpow_mul(g, pow2(11), pow2(11));
    vstd::arithmetic::power2::lemma_pow2_unfold(12);
    assert(fmul(6553637399136210105, 6553637399136210105) == 1971462654193939361);
    assert(fpow(g, pow2(12)) == 1971462654193939361);
    lemma_fpow_mul(g, pow2(12), pow2(12));
    vstd::arithmetic::power2::lemma_pow2_unfold(13);
    assert(fmul(1971462654193939361, 1971462654193939361) == 8982441859486529725);
    assert(fpow(g, pow2(13)) == 8982441859486529725);
    lemma_fpow_mul(g, pow2(13), pow2(13));
    vstd::arithmetic::power2::lemma_pow2_unfold(14);
    assert(fmul(8982441859486529725, 8982441859486529725) == 3411401055030829696);
    assert(fpow(g, pow2(14)) == 3411401055030829696);
    lemma_fpow_mul(g, pow2(14), pow2(14));
    vstd::arithmetic::power2::lemma_pow2_unfold(15);
    assert(fmul(3411401055030829696, 3411401055030829696) == 5718075921287398682);
    assert(fpow(g, pow2(15)) == 5718075921287398682);
    lemma_fpow_mul(g, pow2(15), pow2(15));
    vstd::arithmetic::power2::lemma_pow2_unfold(16);
    assert(fmul(5718075921287398682, 5718075921287398682) == 8167150655112846419);
    assert(fpow(g, pow2(16)) == 8167150655112846419);
    lemma_fpow_mul(g, pow2(16), pow2(16));
    vstd::arithmetic::power2::lemma_pow2_unfold(17);
    assert(fmul(8167150655112846419, 8167150655112846419) == 1873558160482552414);
    assert(fpow(g, pow2(17)) == 1873558160482552414);
    lemma_fpow_mul(g, pow2(17), pow2(17));
    vstd::arithmetic::power2::lemma_pow2_unfold(18);
    assert(fmul(1873558160482552414, 1873558160482552414) == 7126024226993609386);
    assert(fpow(g, pow2(18)) == 7126024226993609386);
    lemma_fpow_mul(g, pow2(18), pow2(18));
    vstd::arithmetic::power2::lemma_pow2_unfold(19);
    assert(fmul(7126024226993609386, 7126024226993609386) == 4308460244895131701);
    assert(fpow(g, pow2(19)) == 4308460244895131701);
    lemma_fpow_mul(g, pow2(19), pow2(19));
    vstd::arithmetic::power2::lemma_pow2_unfold(20);
    assert(fmul(4308460244895131701, 4308460244895131701) == 4355325209153869931);
    assert(fpow(g, pow2(20)) == 4355325209153869931);
    lemma_fpow_mul(g, pow2(20), pow2(20));
    vstd::arithmetic::power2::lemma_pow2_unfold(21);
    assert(fmul(4355325209153869931, 4355325209153869931) == 9113133275150391358);
    assert(fpow(g, pow2(21)) == 9113133275150391358);
    lemma_fpow_mul(g, pow2(21), pow2(21));
    vstd::arithmetic::power2::lemma_pow2_unfold(22);
    assert(fmul(9113133275150391358, 9113133275150391358) == 4255134452441852017);
    assert(fpow(g, pow2(22)) == 4255134452441852017);
    lemma_fpow_mul(g, pow2(22), pow2(22));
    vstd::arithmetic::power2::lemma_pow2_unfold(23);
    assert(fmul(4255134452441852017, 4255134452441852017) == 6434636298004421797);
    assert(fpow(g, pow2(23)) == 6434636298004421797);
    lemma_fpow_mul(g, pow2(23), pow2(23));
    vstd::arithmetic::power2::lemma_pow2_unfold(24);
    assert(fmul(6434636298004421797, 6434636298004421797) == 4404853092538523347);
    assert(fpow(g, pow2(24)) == 4404853092538523347);
    lemma_fpow_mul(g, pow2(24), pow2(24));
    vstd::arithmetic::power2::lemma_pow2_unfold(25);
    assert(fmul(4404853092538523347, 4404853092538523347) == 2198989700608);
    assert(fpow(g, pow2(25)) == 2198989700608);
    lemma_fpow_mul(g, pow2(25), pow2(25));
    vstd::arithmetic::power2::lemma_pow2_unfold(26);
    assert(fmul(2198989700608, 2198989700608) == 8);
    assert(fpow(g, pow2(26)) == 8);
    lemma_fpow_mul(g, pow2(26), pow2(26));
    vstd::arithmetic::power2::lemma_pow2_unfold(27);
    assert(fmul(8, 8) == 64);
    assert(fpow(g, pow2(27)) == 64);
    lemma_fpow_mul(g, pow2(27), pow2(27));
    vstd::arithmetic::power2::lemma_pow2_unfold(28);
    assert(fmul(64, 64) == 4096);
    assert(fpow(g, pow2(28)) == 4096);
    lemma_fpow_mul(g, pow2(28), pow2(28));
    vstd::arithmetic::power2::lemma_pow2_unfold(29);
    assert(fmul(4096, 4096) == 16777216);
    assert(fpow(g, pow2(29)) == 16777216);
    lemma_fpow_mul(g, pow2(29), pow2(29));
    vstd::arithmetic::power2::lemma_pow2_unfold(30);
    assert(fmul(16777216, 16777216) == 281474976710656);
    assert(fpow(g, pow2(30)) == 281474976710656);
    lemma_fpow_mul(g, pow2(30), pow2(30));
    vstd::arithmetic::power2::lemma_pow2_unfold(31);
    assert(fmul(281474976710656, 281474976710656) == 18446744069414584320);
    assert(fpow(g, pow2(31)) == 18446744069414584320);
    lemma_fpow_mul(g, pow2(31), pow2(31));
    vstd::arithmetic::power2::lemma_pow2_unfold(32);
    assert(fmul(18446744069414584320, 18446744069414584320) == 1);
    assert(fpow(g, pow2(32)) == 1);
}
/// `1 * b^e = b^e` in the field.
pub proof fn lemma_fpow_one_left(b: int, e: nat)
    ensures
        fmul(1, fpow(b, e)) == fpow(b, e),
{
    let p = FIELD_ORDER as int;
    vstd::arithmetic::div_mod::lemma_mod_bound(pow(b, e), p);
    vstd::arithmetic::div_mod::lemma_mod_mod(pow(b, e), 1, p);
    lemma_small_mod((pow(b, e) % p) as nat, FIELD_ORDER as nat);
}

} // verus!
