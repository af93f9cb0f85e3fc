//! A gate performing a bounded-width multiply-add, `output = multiplicand_0 *
//! multiplicand_1 + addend`, on values the caller has range-checked to `bits`
//! bits. Several independent operations are packed into one row. The
//! `2*bits`-bit output is split into two `bits`-bit halves, each further
//! decomposed into base-4 limbs that are range-checked by a vanishing
//! polynomial and recombined.

use crate::field::{all_wf, fadd, felt_vals, fmul, fsub, Felt, FIELD_ORDER};
use vstd::arithmetic::div_mod::{
    lemma_fundamental_div_mod, lemma_fundamental_div_mod_converse_div,
    lemma_fundamental_div_mod_converse_mod,
};
use vstd::arithmetic::power2::pow2;
use vstd::prelude::*;

verus! {

/// Product of `(l - x)` over `x < k`: the polynomial whose roots are exactly
/// the valid base-4 digits when `k = 4`.
pub open spec fn limb_product(l: int, k: nat) -> int
    decreases k,
{
    if k == 0 {
        1
    } else {
        fmul(limb_product(l, (k - 1) as nat), fsub(l, k - 1))
    }
}

/// Big-endian fold of base-4 limbs: `ls[0] + 4*(ls[1] + 4*(...))`.
pub open spec fn combine_limbs(ls: Seq<int>) -> int
    decreases ls.len(),
{
    if ls.len() == 0 {
        0
    } else {
        fadd(ls[0], fmul(4, combine_limbs(ls.drop_first())))
    }
}

/// A bounded-width multiply-add gate: `num_ops` independent operations per
/// row, each on `bits`-bit inputs.
#[derive(Clone, Copy, Debug, PartialEq, Eq, Structural)]
pub struct BinaryArithmeticGate {
    pub num_ops: usize,
    pub bits: usize,
}

impl BinaryArithmeticGate {
    /// Validity of a configuration: an even width of at most 32 bits, and a
    /// total wire count that fits the machine.
    pub open spec fn wf_spec(self) -> bool {
        &&& 2 <= self.bits <= 32
        &&& self.bits % 2 == 0
        &&& self.num_ops * (5 + self.bits) <= usize::MAX
    }

    /// Each half of the output decomposes into `bits / 2` limbs, so the full
    /// output has `bits` of them.
    pub open spec fn num_limbs_spec(self) -> int {
        self.bits as int
    }

    /// Constraints emitted per operation: the output identity, one vanishing
    /// polynomial per limb, and the two recombinations.
    pub open spec fn block_size(self) -> int {
        self.num_limbs_spec() + 3
    }

    pub open spec fn num_wires_spec(self) -> int {
        self.num_ops * (5 + self.num_limbs_spec())
    }

    pub open spec fn num_constraints_spec(self) -> int {
        self.num_ops * self.block_size()
    }

    pub open spec fn wire_m0_spec(self, i: int) -> int {
        5 * i
    }

    pub open spec fn wire_m1_spec(self, i: int) -> int {
        5 * i + 1
    }

    pub open spec fn wire_addend_spec(self, i: int) -> int {
        5 * i + 2
    }

    pub open spec fn wire_low_spec(self, i: int) -> int {
        5 * i + 3
    }

    pub open spec fn wire_high_spec(self, i: int) -> int {
        5 * i + 4
    }

    pub open spec fn wire_limb_spec(self, i: int, j: int) -> int {
        5 * self.num_ops + self.num_limbs_spec() * i + j
    }

    /// The limb values of operation `i`, in little-endian order.
    pub open spec fn op_limbs(self, w: Seq<int>, i: int) -> Seq<int> {
        Seq::new(self.num_limbs_spec() as nat, |j: int| w[self.wire_limb_spec(i, j)])
    }

    /// The output identity of operation `i`:
    /// `(high * 2^bits + low) - (m0 * m1 + addend)`.
    pub open spec fn main_constraint(self, w: Seq<int>, i: int) -> int {
        fsub(
            fadd(fmul(w[self.wire_high_spec(i)], pow2(self.bits as nat) as int),
                w[self.wire_low_spec(i)]),
            fadd(fmul(w[self.wire_m0_spec(i)], w[self.wire_m1_spec(i)]),
                w[self.wire_addend_spec(i)]),
        )
    }

    /// The range-check polynomial of limb `j` of operation `i`.
    pub open spec fn limb_constraint(self, w: Seq<int>, i: int, j: int) -> int {
        limb_product(w[self.wire_limb_spec(i, j)], 4)
    }

    /// Recombination of the low half from its limbs.
    pub open spec fn low_recomb_constraint(self, w: Seq<int>, i: int) -> int {
        fsub(
            combine_limbs(self.op_limbs(w, i).subrange(0, self.num_limbs_spec() / 2)),
            w[self.wire_low_spec(i)],
        )
    }

    /// Recombination of the high half from its limbs.
    pub open spec fn high_recomb_constraint(self, w: Seq<int>, i: int) -> int {
        fsub(
            combine_limbs(
                self.op_limbs(w, i).subrange(self.num_limbs_spec() / 2, self.num_limbs_spec()),
            ),
            w[self.wire_high_spec(i)],
        )
    }

    /// Value of the `c`-th emitted constraint on witness values `w`. Each
    /// operation contributes one block: the output identity, then the limb
    /// range checks with the highest limb first, then the two recombinations.
    pub open spec fn constraint_value(self, w: Seq<int>, c: int) -> int {
        let i = c / self.block_size();
        let o = c % self.block_size();
        if o == 0 {
            self.main_constraint(w, i)
        } else if o <= self.num_limbs_spec() {
            self.limb_constraint(w, i, self.num_limbs_spec() - o)
        } else if o == self.num_limbs_spec() + 1 {
            self.low_recomb_constraint(w, i)
        } else {
            self.high_recomb_constraint(w, i)
        }
    }

    /// The number of operations that fit a row: each uses `5 + num_limbs`
    /// wires in total, of which the 5 inputs and outputs must be routable.
    pub fn num_ops(config: &CircuitConfig, bits: usize) -> (r: usize)
        requires
            2 <= bits <= 32,
        ensures
            r == min_spec(config.num_wires as int / (5 + bits as int),
                config.num_routed_wires as int / 5),
            r * (5 + bits) <= config.num_wires,
    {
        let wires_per_op: usize = 5 + bits;
        let routed_wires_per_op: usize = 5;
        let by_total = config.num_wires / wires_per_op;
        let by_routed = config.num_routed_wires / routed_wires_per_op;
        let r = if by_total < by_routed {
            by_total
        } else {
            by_routed
        };
        proof {
            lemma_fundamental_div_mod(config.num_wires as int, wires_per_op as int);
            vstd::arithmetic::mul::lemma_mul_inequality(r as int, by_total as int,
                wires_per_op as int);
        }
        r
    }

    pub fn new_from_config(config: &CircuitConfig, bits: usize) -> (r: BinaryArithmeticGate)
        requires
            2 <= bits <= 32,
            bits % 2 == 0,
        ensures
            r.wf_spec(),
            r.bits == bits,
            r.num_ops == min_spec(config.num_wires as int / (5 + bits as int),
                config.num_routed_wires as int / 5),
    {
        let num_ops = Self::num_ops(config, bits);
        BinaryArithmeticGate { num_ops, bits }
    }

    /// Limbs are base-4 digits.
    pub fn limb_bits() -> (r: usize)
        ensures
            r == 2,
    {
        2
    }

    pub fn num_limbs(&self) -> (r: usize)
        requires
            self.bits <= 32,
        ensures
            r == self.num_limbs_spec(),
    {
        2 * self.bits / Self::limb_bits()
    }

    pub fn wire_ith_multiplicand_0(&self, i: usize) -> (r: usize)
        requires
            self.wf_spec(),
            i < self.num_ops,
        ensures
            r == self.wire_m0_spec(i as int),
    {
        proof {
            lemma_arith_wire_bounds(*self, i as int, 0);
        }
        5 * i
    }

    pub fn wire_ith_multiplicand_1(&self, i: usize) -> (r: usize)
        requires
            self.wf_spec(),
            i < self.num_ops,
        ensures
            r == self.wire_m1_spec(i as int),
    {
        proof {
            lemma_arith_wire_bounds(*self, i as int, 0);
        }
        5 * i + 1
    }

    pub fn wire_ith_addend(&self, i: usize) -> (r: usize)
        requires
            self.wf_spec(),
            i < self.num_ops,
        ensures
            r == self.wire_addend_spec(i as int),
    {
        proof {
            lemma_arith_wire_bounds(*self, i as int, 0);
        }
        5 * i + 2
    }

    pub fn wire_ith_output_low_half(&self, i: usize) -> (r: usize)
        requires
            self.wf_spec(),
            i < self.num_ops,
        ensures
            r == self.wire_low_spec(i as int),
    {
        proof {
            lemma_arith_wire_bounds(*self, i as int, 0);
        }
        5 * i + 3
    }

    pub fn wire_ith_output_high_half(&self, i: usize) -> (r: usize)
        requires
            self.wf_spec(),
            i < self.num_ops,
        ensures
            r == self.wire_high_spec(i as int),
    {
        proof {
            lemma_arith_wire_bounds(*self, i as int, 0);
        }
        5 * i + 4
    }

    pub fn wire_ith_output_jth_limb(&self, i: usize, j: usize) -> (r: usize)
        requires
            self.wf_spec(),
            i < self.num_ops,
            j < self.num_limbs_spec(),
        ensures
            r == self.wire_limb_spec(i as int, j as int),
    {
        proof {
            lemma_arith_wire_bounds(*self, i as int, j as int);
        }
        let nl = self.num_limbs();
        5 * self.num_ops + nl * i + j
    }

    pub fn num_wires(&self) -> (r: usize)
        requires
            self.wf_spec(),
        ensures
            r == self.num_wires_spec(),
    {
        let nl = self.num_limbs();
        self.num_ops * (5 + nl)
    }

    pub fn num_constants(&self) -> (r: usize)
        ensures
            r == 0,
    {
        0
    }

    /// Maximal total degree of any emitted constraint: the limb range check
    /// is a product of `2^limb_bits` linear factors.
    pub fn degree(&self) -> (r: usize)
        ensures
            r == 4,
    {
        4
    }

    pub fn num_constraints(&self) -> (r: usize)
        requires
            self.wf_spec(),
        ensures
            r == self.num_constraints_spec(),
    {
        proof {
            assert(self.num_ops * (self.bits + 3) <= self.num_ops * (5 + self.bits))
                by (nonlinear_arith)
                requires
                    self.bits >= 2,
                    self.num_ops >= 0,
            ;
        }
        let nl = self.num_limbs();
        self.num_ops * (nl + 3)
    }

    /// Evaluates every constraint on one row of base-field witness values.
    /// All outputs are zero exactly when the row is a valid witness.
    #[verifier::rlimit(100)]
    pub fn eval_unfiltered_base(&self, wires: &Vec<Felt>) -> (r: Vec<Felt>)
        requires
            self.wf_spec(),
            wires@.len() >= self.num_wires_spec(),
            all_wf(wires@),
        ensures
            r@.len() == self.num_constraints_spec(),
            all_wf(r@),
            forall|c: int|
                0 <= c < r@.len() ==> (#[trigger] r@[c])@ == self.constraint_value(
                    felt_vals(wires@),
                    c,
                ),
    {
        let w = Ghost(felt_vals(wires@));
        let nl = self.num_limbs();
        let block = Ghost(self.block_size());
        let base = Felt { v: crate::field::pow2_u64((self.bits) as u64) };
        proof {
            crate::field::lemma_pow2_le_order(self.bits as nat);
        }
        let base4 = Felt { v: 4 };
        let mut constraints: Vec<Felt> = Vec::new();
        let mut i: usize = 0;
        while i < self.num_ops
            invariant
                self.wf_spec(),
                wires@.len() >= self.num_wires_spec(),
                all_wf(wires@),
                w@ == felt_vals(wires@),
                nl == self.num_limbs_spec(),
                block@ == self.block_size(),
                base.wf(),
                base@ == pow2(self.bits as nat) as int,
                base4.wf(),
                base4@ == 4,
                i <= self.num_ops,
                constraints@.len() == i * block@,
                all_wf(constraints@),
                forall|c: int|
                    0 <= c < constraints@.len() ==> (#[trigger] constraints@[c])@
                        == self.constraint_value(w@, c),
            decreases self.num_ops - i,
        {
            proof {
                lemma_arith_wire_bounds(*self, i as int, 0);
                assert(i * block@ + block@ <= self.num_ops * block@) by (nonlinear_arith)
                    requires
                        0 <= i < self.num_ops as int,
                        block@ == self.block_size(),
                        self.block_size() >= 0,
                ;
                assert(self.num_ops * self.block_size() <= self.num_ops * (5 + self.bits))
                    by (nonlinear_arith)
                    requires
                        self.bits >= 2,
                        self.num_ops >= 0,
                        self.block_size() == self.bits + 3,
                ;
            }
            let m0 = wires[self.wire_ith_multiplicand_0(i)];
            let m1 = wires[self.wire_ith_multiplicand_1(i)];
            let addend = wires[self.wire_ith_addend(i)];
            let output_low = wires[self.wire_ith_output_low_half(i)];
            let output_high = wires[self.wire_ith_output_high_half(i)];

            let computed_output = m0.mul(m1).add(addend);
            let combined_output = output_high.mul(base).add(output_low);
            proof {
                lemma_block_offset(constraints@.len() as int, i as int, 0, block@);
            }
            constraints.push(combined_output.sub(computed_output));

            let mut combined_low_limbs = Felt::zero();
            let mut combined_high_limbs = Felt::zero();
            let midpoint = nl / 2;
            let mut j: usize = nl;
            while j > 0
                invariant
                    self.wf_spec(),
                    wires@.len() >= self.num_wires_spec(),
                    all_wf(wires@),
                    w@ == felt_vals(wires@),
                    nl == self.num_limbs_spec(),
                    block@ == self.block_size(),
                    base4.wf(),
                    base4@ == 4,
                    i < self.num_ops,
                    midpoint == nl / 2,
                    j <= nl,
                    constraints@.len() == i * block@ + 1 + (nl - j),
                    all_wf(constraints@),
                    forall|c: int|
                        0 <= c < constraints@.len() ==> (#[trigger] constraints@[c])@
                            == self.constraint_value(w@, c),
                    combined_high_limbs.wf(),
                    combined_low_limbs.wf(),
                    combined_high_limbs@ == combine_limbs(
                        self.op_limbs(w@, i as int).subrange(
                            if j as int >= nl / 2 {
                                j as int
                            } else {
                                nl as int / 2
                            },
                            nl as int,
                        ),
                    ),
                    combined_low_limbs@ == (if (j as int) < nl / 2 {
                        combine_limbs(self.op_limbs(w@, i as int).subrange(j as int, nl as int / 2))
                    } else {
                        0
                    }),
                decreases j,
            {
                j -= 1;
                proof {
                    lemma_arith_wire_bounds(*self, i as int, j as int);
                }
                let this_limb = wires[self.wire_ith_output_jth_limb(i, j)];
                let mut product = Felt::one();
                let mut x: u64 = 0;
                while x < 4
                    invariant
                        this_limb.wf(),
                        product.wf(),
                        x <= 4,
                        product@ == limb_product(this_limb@, x as nat),
                    decreases 4 - x,
                {
                    product = product.mul(this_limb.sub(Felt { v: x }));
                    x += 1;
                }
                proof {
                    lemma_block_offset(constraints@.len() as int, i as int, nl - j, block@);
                    assert(self.op_limbs(w@, i as int)[j as int] == w@[self.wire_limb_spec(
                        i as int, j as int)]);
                }
                constraints.push(product);

                proof {
                    if (j as int) < nl as int / 2 {
                        lemma_combine_step(self.op_limbs(w@, i as int), j as int, nl as int / 2);
                    } else {
                        lemma_combine_step(self.op_limbs(w@, i as int), j as int, nl as int);
                    }
                }
                if j < midpoint {
                    combined_low_limbs = base4.mul(combined_low_limbs).add(this_limb);
                } else {
                    combined_high_limbs = base4.mul(combined_high_limbs).add(this_limb);
                }
            }
            proof {
                lemma_block_offset(constraints@.len() as int, i as int, nl as int + 1, block@);
            }
            constraints.push(combined_low_limbs.sub(output_low));
            proof {
                lemma_block_offset(constraints@.len() as int, i as int, nl as int + 2, block@);
            }
            constraints.push(combined_high_limbs.sub(output_high));
            proof {
                assert((i as int + 1) * block@ == i as int * block@ + block@) by (nonlinear_arith);
            }
            i += 1;
        }
        constraints
    }
}

impl BinaryArithmeticGate {
    /// The operation's output before splitting: `m0 * m1 + addend` in the
    /// field.
    pub open spec fn raw_output(self, m0: int, m1: int, a: int) -> int {
        fadd(fmul(m0, m1), a)
    }

    /// Low half of the output: its canonical representative modulo `2^bits`.
    pub open spec fn gen_low(self, raw: int) -> int {
        raw % (pow2(self.bits as nat) as int)
    }

    /// High half of the output: its canonical representative shifted down by
    /// `bits`.
    pub open spec fn gen_high(self, raw: int) -> int {
        raw / (pow2(self.bits as nat) as int)
    }

    /// The `j`-th base-4 limb of the output's canonical representative.
    pub open spec fn gen_limb(self, raw: int, j: int) -> int {
        (raw / (pow2((2 * j) as nat) as int)) % 4
    }

    /// One generator per packed operation.
    pub fn generators(&self, gate_index: usize, _local_constants: &Vec<Felt>) -> (r: Vec<
        BinaryArithmeticGenerator,
    >)
        requires
            self.wf_spec(),
        ensures
            r@.len() == self.num_ops,
            forall|k: int|
                0 <= k < r@.len() ==> (#[trigger] r@[k]).gate == *self && r@[k].gate_index
                    == gate_index && r@[k].i == k,
    {
        let mut out: Vec<BinaryArithmeticGenerator> = Vec::new();
        let mut k: usize = 0;
        while k < self.num_ops
            invariant
                k <= self.num_ops,
                out@.len() == k,
                forall|m: int|
                    0 <= m < out@.len() ==> (#[trigger] out@[m]).gate == *self && out@[m].gate_index
                        == gate_index && out@[m].i == m,
            decreases self.num_ops - k,
        {
            out.push(BinaryArithmeticGenerator { gate: *self, gate_index, i: k });
            k += 1;
        }
        out
    }
}

/// The deferred computation for one operation of one gate instance: reads the
/// three routed inputs, writes the two output halves and the limbs.
#[derive(Clone, Copy, Debug, PartialEq, Eq, Structural)]
pub struct BinaryArithmeticGenerator {
    pub gate: BinaryArithmeticGate,
    pub gate_index: usize,
    pub i: usize,
}

impl BinaryArithmeticGenerator {
    /// The row-local wire at column `input` of this generator's row.
    pub open spec fn local_wire_spec(self, input: int) -> Wire {
        Wire { gate: self.gate_index, input: input as usize }
    }

    pub open spec fn wf_spec(self) -> bool {
        self.gate.wf_spec() && self.i < self.gate.num_ops
    }

    /// The generator may run once its three input wires are resolved.
    pub open spec fn deps_resolved(self, witness: PartitionWitness) -> bool {
        &&& witness.is_set(self.local_wire_spec(self.gate.wire_m0_spec(self.i as int)))
        &&& witness.is_set(self.local_wire_spec(self.gate.wire_m1_spec(self.i as int)))
        &&& witness.is_set(self.local_wire_spec(self.gate.wire_addend_spec(self.i as int)))
    }

    /// The operation's output given a resolved witness.
    pub open spec fn raw_of(self, witness: PartitionWitness) -> int {
        self.gate.raw_output(
            witness.wire_value(self.local_wire_spec(self.gate.wire_m0_spec(self.i as int))),
            witness.wire_value(self.local_wire_spec(self.gate.wire_m1_spec(self.i as int))),
            witness.wire_value(self.local_wire_spec(self.gate.wire_addend_spec(self.i as int))),
        )
    }

    pub fn dependencies(&self) -> (r: Vec<Wire>)
        requires
            self.wf_spec(),
        ensures
            r@.len() == 3,
            r@[0] == self.local_wire_spec(self.gate.wire_m0_spec(self.i as int)),
            r@[1] == self.local_wire_spec(self.gate.wire_m1_spec(self.i as int)),
            r@[2] == self.local_wire_spec(self.gate.wire_addend_spec(self.i as int)),
    {
        let mut r: Vec<Wire> = Vec::new();
        r.push(Wire { gate: self.gate_index, input: self.gate.wire_ith_multiplicand_0(self.i) });
        r.push(Wire { gate: self.gate_index, input: self.gate.wire_ith_multiplicand_1(self.i) });
        r.push(Wire { gate: self.gate_index, input: self.gate.wire_ith_addend(self.i) });
        r
    }

    /// Computes the output from the resolved inputs, splits it into halves,
    /// decomposes it into little-endian limbs, and writes halves and limbs
    /// into the buffer.
    pub fn run_once(&self, witness: &PartitionWitness, out_buffer: &mut GeneratedValues)
        requires
            self.wf_spec(),
            witness.wf(),
            self.deps_resolved(*witness),
            old(out_buffer).wf(),
        ensures
            final(out_buffer).wf(),
            ({
                let g = self.gate;
                let raw = self.raw_of(*witness);
                let n0 = old(out_buffer).target_values@.len() as int;
                let tv = final(out_buffer).target_values@;
                &&& tv.len() == n0 + 2 + g.num_limbs_spec()
                &&& tv.subrange(0, n0) == old(out_buffer).target_values@
                &&& tv[n0].0 == self.local_wire_spec(g.wire_high_spec(self.i as int))
                &&& tv[n0].1@ == g.gen_high(raw)
                &&& tv[n0 + 1].0 == self.local_wire_spec(g.wire_low_spec(self.i as int))
                &&& tv[n0 + 1].1@ == g.gen_low(raw)
                &&& forall|j: int|
                    0 <= j < g.num_limbs_spec() ==> (#[trigger] tv[n0 + 2 + j]).0
                        == self.local_wire_spec(g.wire_limb_spec(self.i as int, j)) && tv[n0 + 2
                        + j].1@ == g.gen_limb(raw, j)
            }),
    {
        let m0 = witness.get_wire(
            Wire { gate: self.gate_index, input: self.gate.wire_ith_multiplicand_0(self.i) },
        );
        let m1 = witness.get_wire(
            Wire { gate: self.gate_index, input: self.gate.wire_ith_multiplicand_1(self.i) },
        );
        let addend = witness.get_wire(
            Wire { gate: self.gate_index, input: self.gate.wire_ith_addend(self.i) },
        );
        let output = m0.mul(m1).add(addend);
        let base = crate::field::pow2_u64(self.gate.bits as u64);
        proof {
            crate::field::lemma_pow2_le_order(self.gate.bits as nat);
            vstd::arithmetic::power2::lemma_pow2_pos(self.gate.bits as nat);
            vstd::arithmetic::div_mod::lemma_div_pos_is_pos(output.v as int, base as int);
            vstd::arithmetic::div_mod::lemma_div_is_ordered_by_denominator(output.v as int, 1,
                base as int);
            vstd::arithmetic::div_mod::lemma_div_by_self(base as int);
        }
        let output_high_u64 = output.v / base;
        let output_low_u64 = output.v % base;
        let output_high = Felt { v: output_high_u64 };
        let output_low = Felt { v: output_low_u64 };
        out_buffer.set_wire(
            Wire { gate: self.gate_index, input: self.gate.wire_ith_output_high_half(self.i) },
            output_high,
        );
        out_buffer.set_wire(
            Wire { gate: self.gate_index, input: self.gate.wire_ith_output_low_half(self.i) },
            output_low,
        );
        let num_limbs = self.gate.num_limbs();
        let mut cur: u64 = output.v;
        let mut j: usize = 0;
        proof {
            vstd::arithmetic::power2::lemma2_to64();
            vstd::arithmetic::div_mod::lemma_div_basics(output.v as int);
        }
        while j < num_limbs
            invariant
                self.wf_spec(),
                num_limbs == self.gate.num_limbs_spec(),
                j <= num_limbs,
                cur as int == self.raw_of(*witness) / (pow2((2 * j) as nat) as int),
                out_buffer.wf(),
                ({
                    let g = self.gate;
                    let raw = self.raw_of(*witness);
                    let n0 = old(out_buffer).target_values@.len() as int;
                    let tv = out_buffer.target_values@;
                    &&& tv.len() == n0 + 2 + j
                    &&& tv.subrange(0, n0) == old(out_buffer).target_values@
                    &&& tv[n0].0 == self.local_wire_spec(g.wire_high_spec(self.i as int))
                    &&& tv[n0].1@ == g.gen_high(raw)
                    &&& tv[n0 + 1].0 == self.local_wire_spec(g.wire_low_spec(self.i as int))
                    &&& tv[n0 + 1].1@ == g.gen_low(raw)
                    &&& forall|m: int|
                        0 <= m < j ==> (#[trigger] tv[n0 + 2 + m]).0 == self.local_wire_spec(
                            g.wire_limb_spec(self.i as int, m)) && tv[n0 + 2 + m].1@ == g.gen_limb(
                            raw, m)
                }),
            decreases num_limbs - j,
        {
            let limb = cur % 4;
            out_buffer.set_wire(
                Wire { gate: self.gate_index, input: self.gate.wire_ith_output_jth_limb(self.i, j) },
                Felt { v: limb },
            );
            proof {
                let raw = self.raw_of(*witness);
                vstd::arithmetic::power2::lemma_pow2_pos((2 * j) as nat);
                vstd::arithmetic::div_mod::lemma_div_denominator(raw,
                    pow2((2 * j) as nat) as int, 4);
                vstd::arithmetic::power2::lemma_pow2_adds((2 * j) as nat, 2);
                vstd::arithmetic::power2::lemma2_to64();
            }
            cur = cur / 4;
            j += 1;
        }
    }
}

/// Extension-field counterpart of `limb_product`.
pub open spec fn ext_limb_product(l: Ext4, k: nat) -> Ext4
    decreases k,
{
    if k == 0 {
        ext_one()
    } else {
        ext_mul(ext_limb_product(l, (k - 1) as nat), ext_sub(l, ext_embed(k - 1)))
    }
}

/// Extension-field counterpart of `combine_limbs`.
pub open spec fn ext_combine_limbs(ls: Seq<Ext4>) -> Ext4
    decreases ls.len(),
{
    if ls.len() == 0 {
        ext_zero()
    } else {
        ext_add(ext_mul(ext_embed(4), ext_combine_limbs(ls.drop_first())), ls[0])
    }
}

/// Peeling one element off the front of an extension limb fold.
pub(crate) proof fn lemma_ext_combine_step(ls: Seq<Ext4>, lo: int, hi: int)
    requires
        0 <= lo < hi <= ls.len(),
    ensures
        ext_combine_limbs(ls.subrange(lo, hi)) == ext_add(
            ext_mul(ext_embed(4), ext_combine_limbs(ls.subrange(lo + 1, hi))),
            ls[lo],
        ),
{
    let s = ls.subrange(lo, hi);
    assert(s.drop_first() =~= ls.subrange(lo + 1, hi));
}

impl BinaryArithmeticGate {
    /// The limb values of operation `i` over the extension field.
    pub open spec fn ext_op_limbs(self, w: Seq<Ext4>, i: int) -> Seq<Ext4> {
        Seq::new(self.num_limbs_spec() as nat, |j: int| w[self.wire_limb_spec(i, j)])
    }

    /// The output identity over the extension field.
    pub open spec fn ext_main_constraint(self, w: Seq<Ext4>, i: int) -> Ext4 {
        ext_sub(
            ext_add(
                ext_mul(w[self.wire_high_spec(i)], ext_embed(pow2(self.bits as nat) as int)),
                w[self.wire_low_spec(i)],
            ),
            ext_add(ext_mul(w[self.wire_m0_spec(i)], w[self.wire_m1_spec(i)]),
                w[self.wire_addend_spec(i)]),
        )
    }

    /// The limb range check over the extension field.
    pub open spec fn ext_limb_constraint(self, w: Seq<Ext4>, i: int, j: int) -> Ext4 {
        ext_limb_product(w[self.wire_limb_spec(i, j)], 4)
    }

    /// The low-half recombination over the extension field.
    pub open spec fn ext_low_recomb_constraint(self, w: Seq<Ext4>, i: int) -> Ext4 {
        ext_sub(
            ext_combine_limbs(self.ext_op_limbs(w, i).subrange(0, self.num_limbs_spec() / 2)),
            w[self.wire_low_spec(i)],
        )
    }

    /// The high-half recombination over the extension field.
    pub open spec fn ext_high_recomb_constraint(self, w: Seq<Ext4>, i: int) -> Ext4 {
        ext_sub(
            ext_combine_limbs(
                self.ext_op_limbs(w, i).subrange(self.num_limbs_spec() / 2,
                    self.num_limbs_spec()),
            ),
            w[self.wire_high_spec(i)],
        )
    }

    /// Value of the `c`-th constraint over the extension field; same block
    /// layout as `constraint_value`.
    pub open spec fn ext_constraint_value(self, w: Seq<Ext4>, c: int) -> Ext4 {
        let i = c / self.block_size();
        let o = c % self.block_size();
        if o == 0 {
            self.ext_main_constraint(w, i)
        } else if o <= self.num_limbs_spec() {
            self.ext_limb_constraint(w, i, self.num_limbs_spec() - o)
        } else if o == self.num_limbs_spec() + 1 {
            self.ext_low_recomb_constraint(w, i)
        } else {
            self.ext_high_recomb_constraint(w, i)
        }
    }

    /// Evaluates every constraint on one row of extension-field values: the
    /// same algebraic identity as `eval_unfiltered_base`, on the
    /// soundness-amplified domain.
    #[verifier::rlimit(100)]
    pub fn eval_unfiltered(&self, wires: &Vec<ExtElem>) -> (r: Vec<ExtElem>)
        requires
            self.wf_spec(),
            wires@.len() >= self.num_wires_spec(),
            ext_all_wf(wires@),
        ensures
            r@.len() == self.num_constraints_spec(),
            ext_all_wf(r@),
            forall|c: int|
                0 <= c < r@.len() ==> (#[trigger] r@[c])@ == self.ext_constraint_value(
                    ext_vals(wires@),
                    c,
                ),
    {
        let w = Ghost(ext_vals(wires@));
        let nl = self.num_limbs();
        let block = Ghost(self.block_size());
        proof {
            crate::field::lemma_pow2_le_order(self.bits as nat);
        }
        let base = ExtElem::from_base(Felt { v: crate::field::pow2_u64((self.bits) as u64) });
        let base4 = ExtElem::from_base(Felt { v: 4 });
        let mut constraints: Vec<ExtElem> = Vec::new();
        let mut i: usize = 0;
        while i < self.num_ops
            invariant
                self.wf_spec(),
                wires@.len() >= self.num_wires_spec(),
                ext_all_wf(wires@),
                w@ == ext_vals(wires@),
                nl == self.num_limbs_spec(),
                block@ == self.block_size(),
                base.wf(),
                base@ == ext_embed(pow2(self.bits as nat) as int),
                base4.wf(),
                base4@ == ext_embed(4),
                i <= self.num_ops,
                constraints@.len() == i * block@,
                ext_all_wf(constraints@),
                forall|c: int|
                    0 <= c < constraints@.len() ==> (#[trigger] constraints@[c])@
                        == self.ext_constraint_value(w@, c),
            decreases self.num_ops - i,
        {
            proof {
                lemma_arith_wire_bounds(*self, i as int, 0);
                assert(i * block@ + block@ <= self.num_ops * block@) by (nonlinear_arith)
                    requires
                        0 <= i < self.num_ops as int,
                        block@ == self.block_size(),
                        self.block_size() >= 0,
                ;
                assert(self.num_ops * self.block_size() <= self.num_ops * (5 + self.bits))
                    by (nonlinear_arith)
                    requires
                        self.bits >= 2,
                        self.num_ops >= 0,
                        self.block_size() == self.bits + 3,
                ;
            }
            let m0 = wires[self.wire_ith_multiplicand_0(i)];
            let m1 = wires[self.wire_ith_multiplicand_1(i)];
            let addend = wires[self.wire_ith_addend(i)];
            let output_low = wires[self.wire_ith_output_low_half(i)];
            let output_high = wires[self.wire_ith_output_high_half(i)];

            let computed_output = m0.mul(m1).add(addend);
            let combined_output = output_high.mul(base).add(output_low);
            proof {
                lemma_block_offset(constraints@.len() as int, i as int, 0, block@);
            }
            constraints.push(combined_output.sub(computed_output));

            let mut combined_low_limbs = ExtElem::zero();
            let mut combined_high_limbs = ExtElem::zero();
            let midpoint = nl / 2;
            let mut j: usize = nl;
            while j > 0
                invariant
                    self.wf_spec(),
                    wires@.len() >= self.num_wires_spec(),
                    ext_all_wf(wires@),
                    w@ == ext_vals(wires@),
                    nl == self.num_limbs_spec(),
                    block@ == self.block_size(),
                    base4.wf(),
                    base4@ == ext_embed(4),
                    i < self.num_ops,
                    midpoint == nl / 2,
                    j <= nl,
                    constraints@.len() == i * block@ + 1 + (nl - j),
                    ext_all_wf(constraints@),
                    forall|c: int|
                        0 <= c < constraints@.len() ==> (#[trigger] constraints@[c])@
                            == self.ext_constraint_value(w@, c),
                    combined_high_limbs.wf(),
                    combined_low_limbs.wf(),
                    combined_high_limbs@ == ext_combine_limbs(
                        self.ext_op_limbs(w@, i as int).subrange(
                            if j as int >= nl / 2 {
                                j as int
                            } else {
                                nl as int / 2
                            },
                            nl as int,
                        ),
                    ),
                    combined_low_limbs@ == (if (j as int) < nl / 2 {
                        ext_combine_limbs(
                            self.ext_op_limbs(w@, i as int).subrange(j as int, nl as int / 2))
                    } else {
                        ext_zero()
                    }),
                decreases j,
            {
                j -= 1;
                proof {
                    lemma_arith_wire_bounds(*self, i as int, j as int);
                }
                let this_limb = wires[self.wire_ith_output_jth_limb(i, j)];
                let mut product = ExtElem::one();
                let mut x: u64 = 0;
                while x < 4
                    invariant
                        this_limb.wf(),
                        product.wf(),
                        x <= 4,
                        product@ == ext_limb_product(this_limb@, x as nat),
                    decreases 4 - x,
                {
                    product = product.mul(this_limb.sub(ExtElem::from_base(Felt { v: x })));
                    x += 1;
                }
                proof {
                    lemma_block_offset(constraints@.len() as int, i as int, nl - j, block@);
                    assert(self.ext_op_limbs(w@, i as int)[j as int] == w@[self.wire_limb_spec(
                        i as int, j as int)]);
                }
                constraints.push(product);

                proof {
                    if (j as int) < nl as int / 2 {
                        lemma_ext_combine_step(self.ext_op_limbs(w@, i as int), j as int,
                            nl as int / 2);
                    } else {
                        lemma_ext_combine_step(self.ext_op_limbs(w@, i as int), j as int,
                            nl as int);
                    }
                }
                if j < midpoint {
                    combined_low_limbs = base4.mul(combined_low_limbs).add(this_limb);
                } else {
                    combined_high_limbs = base4.mul(combined_high_limbs).add(this_limb);
                }
            }
            proof {
                lemma_block_offset(constraints@.len() as int, i as int, nl as int + 1, block@);
            }
            constraints.push(combined_low_limbs.sub(output_low));
            proof {
                lemma_block_offset(constraints@.len() as int, i as int, nl as int + 2, block@);
            }
            constraints.push(combined_high_limbs.sub(output_high));
            proof {
                assert((i as int + 1) * block@ == i as int * block@ + block@) by (nonlinear_arith);
            }
            i += 1;
        }
        constraints
    }

    /// Builds the same constraints symbolically into a recursion circuit:
    /// each returned target evaluates (under the wire assignment the builder
    /// carries) to exactly the value the direct evaluator computes, and its
    /// formal degree stays within `degree()`.
    #[verifier::rlimit(100)]
    pub fn eval_unfiltered_recursively(
        &self,
        builder: &mut CircuitBuilder,
        wires: &Vec<ExtensionTarget>,
    ) -> (r: Vec<ExtensionTarget>)
        requires
            self.wf_spec(),
            old(builder).wf(),
            wires@.len() >= self.num_wires_spec(),
            targets_hold(*old(builder), wires@, target_vals(*old(builder), wires@), 1),
        ensures
            final(builder).wf(),
            final(builder).extends(*old(builder)),
            r@.len() == self.num_constraints_spec(),
            forall|c: int|
                0 <= c < r@.len() ==> final(builder).valid_target(#[trigger] r@[c])
                    && final(builder).value_spec(r@[c]) == self.ext_constraint_value(
                    target_vals(*old(builder), wires@),
                    c,
                ) && final(builder).degree_spec(r@[c]) <= 4,
    {
        let w = Ghost(target_vals(*builder, wires@));
        let b0 = Ghost(*builder);
        let nl = self.num_limbs();
        let block = Ghost(self.block_size());
        proof {
            crate::field::lemma_pow2_le_order(self.bits as nat);
        }
        let base_t = builder.constant_extension(
            ExtElem::from_base(Felt { v: crate::field::pow2_u64((self.bits) as u64) }),
        );
        proof {
            lemma_targets_hold_extends(*builder, b0@, wires@, w@, 1);
        }
        let base4_t = builder.constant_extension(ExtElem::from_base(Felt { v: 4 }));
        proof {
            lemma_targets_hold_extends(*builder, b0@, wires@, w@, 1);
            lemma_extends_trans(*builder, b0@, b0@);
        }
        let mut constraints: Vec<ExtensionTarget> = Vec::new();
        let mut i: usize = 0;
        while i < self.num_ops
            invariant
                self.wf_spec(),
                wires@.len() >= self.num_wires_spec(),
                nl == self.num_limbs_spec(),
                block@ == self.block_size(),
                builder.wf(),
                builder.extends(b0@),
                targets_hold(*builder, wires@, w@, 1),
                builder.valid_target(base_t),
                builder.value_spec(base_t) == ext_embed(pow2(self.bits as nat) as int),
                builder.degree_spec(base_t) == 0,
                builder.valid_target(base4_t),
                builder.value_spec(base4_t) == ext_embed(4),
                builder.degree_spec(base4_t) == 0,
                i <= self.num_ops,
                constraints@.len() == i * block@,
                forall|c: int|
                    0 <= c < constraints@.len() ==> builder.valid_target(#[trigger] constraints@[c])
                        && builder.value_spec(constraints@[c]) == self.ext_constraint_value(w@, c)
                        && builder.degree_spec(constraints@[c]) <= 4,
            decreases self.num_ops - i,
        {
            proof {
                lemma_arith_wire_bounds(*self, i as int, 0);
                assert(i * block@ + block@ <= self.num_ops * block@) by (nonlinear_arith)
                    requires
                        0 <= i < self.num_ops as int,
                        block@ == self.block_size(),
                        self.block_size() >= 0,
                ;
                assert(self.num_ops * self.block_size() <= self.num_ops * (5 + self.bits))
                    by (nonlinear_arith)
                    requires
                        self.bits >= 2,
                        self.num_ops >= 0,
                        self.block_size() == self.bits + 3,
                ;
            }
            let m0 = wires[self.wire_ith_multiplicand_0(i)];
            let m1 = wires[self.wire_ith_multiplicand_1(i)];
            let addend = wires[self.wire_ith_addend(i)];
            let output_low = wires[self.wire_ith_output_low_half(i)];
            let output_high = wires[self.wire_ith_output_high_half(i)];

            let pre = Ghost(*builder);
            let computed_output = builder.mul_add_extension(m0, m1, addend);
            let combined_output = builder.mul_add_extension(output_high, base_t, output_low);
            let diff = builder.sub_extension(combined_output, computed_output);
            proof {
                lemma_reestablish(*builder, pre@, b0@, wires@, w@, constraints@, *self, base_t,
                    base4_t);
                lemma_block_offset(constraints@.len() as int, i as int, 0, block@);
            }
            constraints.push(diff);

            let prez = Ghost(*builder);
            let mut combined_low_limbs = builder.zero_extension();
            let prez2 = Ghost(*builder);
            let mut combined_high_limbs = builder.zero_extension();
            proof {
                lemma_reestablish(*builder, prez2@, b0@, wires@, w@, constraints@, *self, base_t,
                    base4_t);
                lemma_reestablish(*builder, prez2@, prez@, wires@, w@, constraints@, *self,
                    base_t, base4_t);
                lemma_extends_target(*builder, prez2@, combined_low_limbs);
            }
            let midpoint = nl / 2;
            let mut j: usize = nl;
            while j > 0
                invariant
                    self.wf_spec(),
                    wires@.len() >= self.num_wires_spec(),
                    nl == self.num_limbs_spec(),
                    block@ == self.block_size(),
                    builder.wf(),
                    builder.extends(b0@),
                    targets_hold(*builder, wires@, w@, 1),
                    builder.valid_target(base4_t),
                    builder.value_spec(base4_t) == ext_embed(4),
                    builder.degree_spec(base4_t) == 0,
                    builder.valid_target(base_t),
                    builder.value_spec(base_t) == ext_embed(pow2(self.bits as nat) as int),
                    builder.degree_spec(base_t) == 0,
                    i < self.num_ops,
                    midpoint == nl / 2,
                    j <= nl,
                    constraints@.len() == i * block@ + 1 + (nl - j),
                    forall|c: int|
                        0 <= c < constraints@.len() ==> builder.valid_target(
                            #[trigger] constraints@[c]) && builder.value_spec(constraints@[c])
                            == self.ext_constraint_value(w@, c) && builder.degree_spec(
                            constraints@[c]) <= 4,
                    builder.valid_target(combined_high_limbs),
                    builder.degree_spec(combined_high_limbs) <= 1,
                    builder.value_spec(combined_high_limbs) == ext_combine_limbs(
                        self.ext_op_limbs(w@, i as int).subrange(
                            if j as int >= nl / 2 {
                                j as int
                            } else {
                                nl as int / 2
                            },
                            nl as int,
                        ),
                    ),
                    builder.valid_target(combined_low_limbs),
                    builder.degree_spec(combined_low_limbs) <= 1,
                    builder.value_spec(combined_low_limbs) == (if (j as int) < nl / 2 {
                        ext_combine_limbs(
                            self.ext_op_limbs(w@, i as int).subrange(j as int, nl as int / 2))
                    } else {
                        ext_zero()
                    }),
                decreases j,
            {
                j -= 1;
                proof {
                    lemma_arith_wire_bounds(*self, i as int, j as int);
                }
                let this_limb = wires[self.wire_ith_output_jth_limb(i, j)];
                let mut product = builder.one_extension();
                proof {
                    lemma_reestablish_inner(*builder, *builder, b0@, wires@, w@, constraints@,
                        *self, base_t, base4_t, combined_low_limbs, combined_high_limbs);
                }
                let mut x: u64 = 0;
                while x < 4
                    invariant
                        self.wf_spec(),
                        nl == self.num_limbs_spec(),
                        block@ == self.block_size(),
                        wires@.len() >= self.num_wires_spec(),
                        i < self.num_ops,
                        j < nl,
                        builder.wf(),
                        builder.extends(b0@),
                        targets_hold(*builder, wires@, w@, 1),
                        builder.valid_target(base4_t),
                        builder.value_spec(base4_t) == ext_embed(4),
                        builder.degree_spec(base4_t) == 0,
                        builder.valid_target(base_t),
                        builder.value_spec(base_t) == ext_embed(pow2(self.bits as nat) as int),
                        builder.degree_spec(base_t) == 0,
                        forall|c: int|
                            0 <= c < constraints@.len() ==> builder.valid_target(
                                #[trigger] constraints@[c]) && builder.value_spec(constraints@[c])
                                == self.ext_constraint_value(w@, c) && builder.degree_spec(
                                constraints@[c]) <= 4,
                        builder.valid_target(combined_high_limbs),
                        builder.degree_spec(combined_high_limbs) <= 1,
                        builder.value_spec(combined_high_limbs) == ext_combine_limbs(
                            self.ext_op_limbs(w@, i as int).subrange(
                                if j as int + 1 >= nl / 2 {
                                    j as int + 1
                                } else {
                                    nl as int / 2
                                },
                                nl as int,
                            ),
                        ),
                        builder.valid_target(combined_low_limbs),
                        builder.degree_spec(combined_low_limbs) <= 1,
                        builder.value_spec(combined_low_limbs) == (if j as int + 1 < nl / 2 {
                            ext_combine_limbs(
                                self.ext_op_limbs(w@, i as int).subrange(j as int + 1,
                                    nl as int / 2))
                        } else {
                            ext_zero()
                        }),
                        x <= 4,
                        builder.valid_target(product),
                        builder.degree_spec(product) <= x,
                        builder.value_spec(product) == ext_limb_product(w@[self.wire_limb_spec(
                            i as int, j as int)], x as nat),
                        builder.valid_target(this_limb),
                        builder.value_spec(this_limb) == w@[self.wire_limb_spec(i as int,
                            j as int)],
                        builder.degree_spec(this_limb) <= 1,
                    decreases 4 - x,
                {
                    let pre2 = Ghost(*builder);
                    let x_t = builder.constant_extension(ExtElem::from_base(Felt { v: x }));
                    let diff_t = builder.sub_extension(this_limb, x_t);
                    let new_product = builder.mul_extension(product, diff_t);
                    proof {
                        lemma_reestablish_inner(*builder, pre2@, b0@, wires@, w@, constraints@,
                            *self, base_t, base4_t, combined_low_limbs, combined_high_limbs);
                    }
                    product = new_product;
                    x += 1;
                }
                proof {
                    lemma_block_offset(constraints@.len() as int, i as int, nl - j, block@);
                    assert(self.ext_op_limbs(w@, i as int)[j as int] == w@[self.wire_limb_spec(
                        i as int, j as int)]);
                }
                constraints.push(product);

                proof {
                    if (j as int) < nl as int / 2 {
                        lemma_ext_combine_step(self.ext_op_limbs(w@, i as int), j as int,
                            nl as int / 2);
                    } else {
                        lemma_ext_combine_step(self.ext_op_limbs(w@, i as int), j as int,
                            nl as int);
                    }
                }
                let pre3 = Ghost(*builder);
                if j < midpoint {
                    combined_low_limbs = builder.mul_add_extension(base4_t, combined_low_limbs,
                        this_limb);
                    proof {
                        lemma_reestablish(*builder, pre3@, b0@, wires@, w@, constraints@, *self,
                            base_t, base4_t);
                        lemma_extends_target(*builder, pre3@, combined_high_limbs);
                    }
                } else {
                    combined_high_limbs = builder.mul_add_extension(base4_t, combined_high_limbs,
                        this_limb);
                    proof {
                        lemma_reestablish(*builder, pre3@, b0@, wires@, w@, constraints@, *self,
                            base_t, base4_t);
                        lemma_extends_target(*builder, pre3@, combined_low_limbs);
                    }
                }
            }
            proof {
                lemma_block_offset(constraints@.len() as int, i as int, nl as int + 1, block@);
            }
            let pre4 = Ghost(*builder);
            let low_diff = builder.sub_extension(combined_low_limbs, output_low);
            proof {
                lemma_reestablish(*builder, pre4@, b0@, wires@, w@, constraints@, *self, base_t,
                    base4_t);
            }
            constraints.push(low_diff);
            proof {
                lemma_block_offset(constraints@.len() as int, i as int, nl as int + 2, block@);
                lemma_extends_target(*builder, pre4@, combined_high_limbs);
            }
            let pre5 = Ghost(*builder);
            let high_diff = builder.sub_extension(combined_high_limbs, output_high);
            proof {
                lemma_reestablish(*builder, pre5@, b0@, wires@, w@, constraints@, *self, base_t,
                    base4_t);
            }
            constraints.push(high_diff);
            proof {
                assert((i as int + 1) * block@ == i as int * block@ + block@) by (nonlinear_arith);
            }
            i += 1;
        }
        constraints
    }
}

/// Re-derives, after the builder grew, that the wires, the constants, and the
/// constraint targets emitted so far keep their values and degrees.
proof fn lemma_reestablish(
    b2: CircuitBuilder,
    b1: CircuitBuilder,
    b0: CircuitBuilder,
    wires: Seq<ExtensionTarget>,
    w: Seq<Ext4>,
    constraints: Seq<ExtensionTarget>,
    g: BinaryArithmeticGate,
    base_t: ExtensionTarget,
    base4_t: ExtensionTarget,
)
    requires
        b2.extends(b1),
        b1.extends(b0),
        targets_hold(b1, wires, w, 1),
        b1.valid_target(base_t),
        b1.valid_target(base4_t),
        forall|c: int|
            0 <= c < constraints.len() ==> b1.valid_target(#[trigger] constraints[c])
                && b1.value_spec(constraints[c]) == g.ext_constraint_value(w, c)
                && b1.degree_spec(constraints[c]) <= 4,
    ensures
        b2.extends(b0),
        targets_hold(b2, wires, w, 1),
        b2.valid_target(base_t),
        b2.value_spec(base_t) == b1.value_spec(base_t),
        b2.degree_spec(base_t) == b1.degree_spec(base_t),
        b2.valid_target(base4_t),
        b2.value_spec(base4_t) == b1.value_spec(base4_t),
        b2.degree_spec(base4_t) == b1.degree_spec(base4_t),
        forall|c: int|
            0 <= c < constraints.len() ==> b2.valid_target(#[trigger] constraints[c])
                && b2.value_spec(constraints[c]) == g.ext_constraint_value(w, c)
                && b2.degree_spec(constraints[c]) <= 4,
{
    lemma_extends_trans(b2, b1, b0);
    lemma_targets_hold_extends(b2, b1, wires, w, 1);
    lemma_extends_target(b2, b1, base_t);
    lemma_extends_target(b2, b1, base4_t);
    assert forall|c: int| 0 <= c < constraints.len() implies b2.valid_target(
        #[trigger] constraints[c]) && b2.value_spec(constraints[c]) == g.ext_constraint_value(w, c)
        && b2.degree_spec(constraints[c]) <= 4 by {
        lemma_extends_target(b2, b1, constraints[c]);
    }
}

/// As `lemma_reestablish`, also keeping the two recombination accumulators.
proof fn lemma_reestablish_inner(
    b2: CircuitBuilder,
    b1: CircuitBuilder,
    b0: CircuitBuilder,
    wires: Seq<ExtensionTarget>,
    w: Seq<Ext4>,
    constraints: Seq<ExtensionTarget>,
    g: BinaryArithmeticGate,
    base_t: ExtensionTarget,
    base4_t: ExtensionTarget,
    acc_low: ExtensionTarget,
    acc_high: ExtensionTarget,
)
    requires
        b2.extends(b1),
        b1.extends(b0),
        targets_hold(b1, wires, w, 1),
        b1.valid_target(base_t),
        b1.valid_target(base4_t),
        b1.valid_target(acc_low),
        b1.valid_target(acc_high),
        forall|c: int|
            0 <= c < constraints.len() ==> b1.valid_target(#[trigger] constraints[c])
                && b1.value_spec(constraints[c]) == g.ext_constraint_value(w, c)
                && b1.degree_spec(constraints[c]) <= 4,
    ensures
        b2.extends(b0),
        targets_hold(b2, wires, w, 1),
        b2.valid_target(base_t),
        b2.value_spec(base_t) == b1.value_spec(base_t),
        b2.degree_spec(base_t) == b1.degree_spec(base_t),
        b2.valid_target(base4_t),
        b2.value_spec(base4_t) == b1.value_spec(base4_t),
        b2.degree_spec(base4_t) == b1.degree_spec(base4_t),
        b2.valid_target(acc_low),
        b2.value_spec(acc_low) == b1.value_spec(acc_low),
        b2.degree_spec(acc_low) == b1.degree_spec(acc_low),
        b2.valid_target(acc_high),
        b2.value_spec(acc_high) == b1.value_spec(acc_high),
        b2.degree_spec(acc_high) == b1.degree_spec(acc_high),
        forall|c: int|
            0 <= c < constraints.len() ==> b2.valid_target(#[trigger] constraints[c])
                && b2.value_spec(constraints[c]) == g.ext_constraint_value(w, c)
                && b2.degree_spec(constraints[c]) <= 4,
{
    lemma_reestablish(b2, b1, b0, wires, w, constraints, g, base_t, base4_t);
    lemma_extends_target(b2, b1, acc_low);
    lemma_extends_target(b2, b1, acc_high);
}

use crate::builder::{
    lemma_extends_target, lemma_extends_trans, lemma_targets_hold_extends, target_vals,
    targets_hold, CircuitBuilder, ExtensionTarget,
};
use crate::circuit::{CircuitConfig, GeneratedValues, PartitionWitness, Wire};
use crate::extension::{
    ext_add, ext_all_wf, ext_embed, ext_mul, ext_one, ext_sub, ext_vals, ext_zero, Ext4, ExtElem,
};

/// The smaller of two values.
pub open spec fn min_spec(a: int, b: int) -> int {
    if a < b {
        a
    } else {
        b
    }
}

/// Wire indices of operation `i` lie below `num_wires_spec`, which fits
/// `usize`.
proof fn lemma_arith_wire_bounds(g: BinaryArithmeticGate, i: int, j: int)
    requires
        g.wf_spec(),
        0 <= i < g.num_ops,
        0 <= j < g.num_limbs_spec(),
    ensures
        0 <= 5 * i && 5 * i + 4 < g.num_wires_spec(),
        5 * g.num_ops <= g.wire_limb_spec(i, j) < g.num_wires_spec(),
        g.num_wires_spec() <= usize::MAX,
{
    let nl = g.num_limbs_spec();
    assert(5 * i + 4 < g.num_ops * (5 + nl) && 5 * g.num_ops <= 5 * g.num_ops + nl * i + j
        && 5 * g.num_ops + nl * i + j < g.num_ops * (5 + nl)) by (nonlinear_arith)
        requires
            0 <= i < g.num_ops,
            0 <= j < nl,
            2 <= nl,
    ;
}

/// For `0 <= o < b`, the constraint index `i*b + o` lies in block `i` at
/// offset `o`.
pub(crate) proof fn lemma_block_offset(c: int, i: int, o: int, b: int)
    requires
        c == i * b + o,
        0 <= o < b,
        0 <= i,
    ensures
        c / b == i,
        c % b == o,
{
    lemma_fundamental_div_mod_converse_div(c, b, i, o);
    lemma_fundamental_div_mod_converse_mod(c, b, i, o);
}

/// Peeling one element off the front of a limb fold.
pub(crate) proof fn lemma_combine_step(ls: Seq<int>, lo: int, hi: int)
    requires
        0 <= lo < hi <= ls.len(),
    ensures
        combine_limbs(ls.subrange(lo, hi)) == fadd(ls[lo], fmul(4, combine_limbs(
            ls.subrange(lo + 1, hi)))),
{
    let s = ls.subrange(lo, hi);
    assert(s.drop_first() =~= ls.subrange(lo + 1, hi));
}

/// The vanishing polynomial of a valid base-4 digit is zero: one of its
/// linear factors vanishes.
pub proof fn lemma_limb_product_zero(l: int, k: nat)
    requires
        0 <= l < k,
    ensures
        limb_product(l, k) == 0,
    decreases k,
{
    if l == k - 1 {
        assert(fsub(l, (k - 1) as int) == 0);
    } else {
        lemma_limb_product_zero(l, (k - 1) as nat);
    }
}

/// Folding a range of the base-4 digits of `v` yields the matching slice of
/// `v` itself: digits `lo..hi` recombine to `(v / 4^lo) % 4^(hi-lo)`.
pub(crate) proof fn lemma_combine_digit_range(ls: Seq<int>, v: int, lo: int, hi: int)
    requires
        0 <= lo <= hi <= ls.len(),
        0 <= v,
        2 * (hi - lo) <= 32,
        forall|j: int|
            lo <= j < hi ==> ls[j] == (v / (pow2((2 * j) as nat) as int)) % 4,
    ensures
        combine_limbs(ls.subrange(lo, hi)) == (v / (pow2((2 * lo) as nat) as int)) % (pow2(
            (2 * (hi - lo)) as nat) as int),
    decreases hi - lo,
{
    vstd::arithmetic::power2::lemma2_to64();
    vstd::arithmetic::power2::lemma_pow2_pos((2 * lo) as nat);
    let u = v / (pow2((2 * lo) as nat) as int);
    vstd::arithmetic::div_mod::lemma_div_pos_is_pos(v, pow2((2 * lo) as nat) as int);
    if lo == hi {
        assert(ls.subrange(lo, hi).len() == 0);
        assert(u % 1 == 0);
    } else {
        let k = hi - lo;
        lemma_combine_digit_range(ls, v, lo + 1, hi);
        lemma_combine_step(ls, lo, hi);
        vstd::arithmetic::power2::lemma_pow2_pos((2 * (k - 1)) as nat);
        let z = pow2((2 * (k - 1)) as nat) as int;
        // u % 4^k splits into its lowest digit and the rest.
        vstd::arithmetic::div_mod::lemma_breakdown(u, 4, z);
        vstd::arithmetic::power2::lemma_pow2_adds(2, (2 * (k - 1)) as nat);
        assert(4 * z == pow2((2 * k) as nat) as int);
        // The tail starts at digit lo + 1.
        vstd::arithmetic::div_mod::lemma_div_denominator(v, pow2((2 * lo) as nat) as int, 4);
        vstd::arithmetic::power2::lemma_pow2_adds((2 * lo) as nat, 2);
        assert(u / 4 == v / (pow2((2 * (lo + 1)) as nat) as int));
        // Both pieces are small enough that the field fold is exact.
        vstd::arithmetic::div_mod::lemma_mod_bound(u / 4, z);
        vstd::arithmetic::div_mod::lemma_mod_bound(u, 4);
        let rest = (u / 4) % z;
        crate::field::lemma_pow2_le_order((2 * k) as nat);
        assert(4 * rest + u % 4 < 4 * z) by (nonlinear_arith)
            requires
                rest < z,
                u % 4 < 4,
                0 < z,
        ;
        assert(fmul(4, rest) == 4 * rest) by {
            vstd::arithmetic::div_mod::lemma_small_mod((4 * rest) as nat, FIELD_ORDER as nat);
        }
        assert(fadd(ls[lo], fmul(4, rest)) == u % 4 + 4 * rest) by {
            vstd::arithmetic::div_mod::lemma_small_mod((u % 4 + 4 * rest) as nat,
                FIELD_ORDER as nat);
        }
        assert(u % (4 * z) == 4 * ((u / 4) % z) + u % 4);
    }
}

impl BinaryArithmeticGate {
    /// The output of operation `i` as the row states it.
    pub open spec fn op_raw(self, w: Seq<int>, i: int) -> int {
        self.raw_output(w[self.wire_m0_spec(i)], w[self.wire_m1_spec(i)],
            w[self.wire_addend_spec(i)])
    }

    /// The three inputs of operation `i` are nonnegative and fit `bits` bits.
    pub open spec fn op_inputs_in_range(self, w: Seq<int>, i: int) -> bool {
        &&& 0 <= w[self.wire_m0_spec(i)] < pow2(self.bits as nat) as int
        &&& 0 <= w[self.wire_m1_spec(i)] < pow2(self.bits as nat) as int
        &&& 0 <= w[self.wire_addend_spec(i)] < pow2(self.bits as nat) as int
    }

    /// The outputs and limbs of operation `i` are the ones this gate's
    /// generator writes.
    pub open spec fn op_generated(self, w: Seq<int>, i: int) -> bool {
        let raw = self.op_raw(w, i);
        &&& w[self.wire_low_spec(i)] == self.gen_low(raw)
        &&& w[self.wire_high_spec(i)] == self.gen_high(raw)
        &&& forall|j: int|
            0 <= j < self.num_limbs_spec() ==> w[self.wire_limb_spec(i, j)] == self.gen_limb(
                raw, j)
    }
}

/// For inputs that fit `bits` bits, the operation's output does not wrap: it
/// equals `m0 * m1 + a` as an integer and fits `2*bits` bits, which is below
/// the field order.
pub proof fn lemma_raw_exact(g: BinaryArithmeticGate, m0: int, m1: int, a: int)
    requires
        g.wf_spec(),
        0 <= m0 < pow2(g.bits as nat) as int,
        0 <= m1 < pow2(g.bits as nat) as int,
        0 <= a < pow2(g.bits as nat) as int,
    ensures
        g.raw_output(m0, m1, a) == m0 * m1 + a,
        m0 * m1 + a < pow2((2 * g.bits) as nat) as int,
        (pow2((2 * g.bits) as nat) as int - pow2(g.bits as nat) as int) < (FIELD_ORDER as int),
{
    let b = pow2(g.bits as nat) as int;
    vstd::arithmetic::power2::lemma_pow2_adds(g.bits as nat, g.bits as nat);
    vstd::arithmetic::power2::lemma2_to64();
    vstd::arithmetic::power2::lemma2_to64_rest();
    assert(pow2((2 * g.bits) as nat) == pow2(g.bits as nat) * pow2(g.bits as nat));
    if g.bits < 32 {
        vstd::arithmetic::power2::lemma_pow2_strictly_increases((2 * g.bits) as nat, 64);
        vstd::arithmetic::power2::lemma_pow2_strictly_increases(g.bits as nat, 32);
    }
    assert(m0 * m1 <= (b - 1) * (b - 1)) by (nonlinear_arith)
        requires
            0 <= m0 <= b - 1,
            0 <= m1 <= b - 1,
    ;
    assert((b - 1) * (b - 1) + (b - 1) == b * b - b) by (nonlinear_arith);
    assert(b * b - b < FIELD_ORDER as int);
    assert(m0 * m1 >= 0) by (nonlinear_arith)
        requires
            m0 >= 0,
            m1 >= 0,
    ;
    assert(fmul(m0, m1) == m0 * m1) by {
        vstd::arithmetic::div_mod::lemma_small_mod((m0 * m1) as nat, FIELD_ORDER as nat);
    }
    assert(fadd(m0 * m1, a) == m0 * m1 + a) by {
        vstd::arithmetic::div_mod::lemma_small_mod((m0 * m1 + a) as nat, FIELD_ORDER as nat);
    }
}

/// Law (exact halves): for inputs that fit `bits` bits, the generated output
/// halves satisfy `low + 2^bits * high == m0 * m1 + a` exactly as integers —
/// no modular wraparound occurs.
pub proof fn lemma_output_halves_exact(g: BinaryArithmeticGate, m0: int, m1: int, a: int)
    requires
        g.wf_spec(),
        0 <= m0 < pow2(g.bits as nat) as int,
        0 <= m1 < pow2(g.bits as nat) as int,
        0 <= a < pow2(g.bits as nat) as int,
    ensures
        ({
            let raw = g.raw_output(m0, m1, a);
            &&& g.gen_low(raw) + pow2(g.bits as nat) * g.gen_high(raw) == m0 * m1 + a
            &&& 0 <= g.gen_low(raw) < pow2(g.bits as nat) as int
            &&& 0 <= g.gen_high(raw) < pow2(g.bits as nat) as int
        }),
{
    lemma_raw_exact(g, m0, m1, a);
    let raw = g.raw_output(m0, m1, a);
    let b = pow2(g.bits as nat) as int;
    vstd::arithmetic::power2::lemma_pow2_pos(g.bits as nat);
    vstd::arithmetic::div_mod::lemma_fundamental_div_mod(raw, b);
    vstd::arithmetic::div_mod::lemma_mod_bound(raw, b);
    vstd::arithmetic::div_mod::lemma_div_pos_is_pos(raw, b);
    vstd::arithmetic::power2::lemma_pow2_adds(g.bits as nat, g.bits as nat);
    vstd::arithmetic::div_mod::lemma_multiply_divide_lt(raw, b, b);
}

/// Law (constraints vanish): on a row that satisfies `op_generated` — its
/// output halves and limbs agree with the witness rule — and whose inputs fit
/// `bits` bits, every emitted constraint evaluates to zero.
pub proof fn lemma_constraints_vanish_on_generated(g: BinaryArithmeticGate, w: Seq<int>)
    requires
        g.wf_spec(),
        w.len() >= g.num_wires_spec(),
        forall|i: int| 0 <= i < g.num_ops ==> #[trigger] g.op_inputs_in_range(w, i),
        forall|i: int| 0 <= i < g.num_ops ==> #[trigger] g.op_generated(w, i),
    ensures
        forall|c: int|
            0 <= c < g.num_constraints_spec() ==> #[trigger] g.constraint_value(w, c) == 0,
{
    let b = g.block_size();
    let nl = g.num_limbs_spec();
    assert forall|c: int| 0 <= c < g.num_constraints_spec() implies #[trigger] g.constraint_value(
        w, c) == 0 by {
        vstd::arithmetic::div_mod::lemma_fundamental_div_mod(c, b);
        vstd::arithmetic::div_mod::lemma_mod_bound(c, b);
        vstd::arithmetic::div_mod::lemma_multiply_divide_lt(c, b, g.num_ops as int);
        let i = c / b;
        let o = c % b;
        assert(0 <= i < g.num_ops);
        assert(g.op_inputs_in_range(w, i));
        assert(g.op_generated(w, i));
        let raw = g.op_raw(w, i);
        let m0 = w[g.wire_m0_spec(i)];
        let m1 = w[g.wire_m1_spec(i)];
        let a = w[g.wire_addend_spec(i)];
        lemma_raw_exact(g, m0, m1, a);
        let bb = pow2(g.bits as nat) as int;
        vstd::arithmetic::power2::lemma_pow2_pos(g.bits as nat);
        vstd::arithmetic::power2::lemma_pow2_adds(g.bits as nat, g.bits as nat);
        crate::field::lemma_pow2_le_order(g.bits as nat);
        if o == 0 {
            lemma_output_halves_exact(g, m0, m1, a);
            let lo = g.gen_low(raw);
            let hi = g.gen_high(raw);
            assert(hi * bb <= (bb - 1) * bb) by (nonlinear_arith)
                requires
                    0 <= hi <= bb - 1,
                    0 < bb,
            ;
            assert((bb - 1) * bb + (bb - 1) < bb * bb) by (nonlinear_arith)
                requires
                    0 < bb,
            ;
            assert(fmul(hi, bb) == hi * bb) by {
                vstd::arithmetic::div_mod::lemma_small_mod((hi * bb) as nat, FIELD_ORDER as nat);
                assert(hi * bb >= 0) by (nonlinear_arith)
                    requires
                        hi >= 0,
                        bb > 0,
                ;
            }
            assert(fadd(hi * bb, lo) == hi * bb + lo) by {
                vstd::arithmetic::div_mod::lemma_small_mod((hi * bb + lo) as nat,
                    FIELD_ORDER as nat);
            }
            assert(hi * bb + lo == raw) by {
                vstd::arithmetic::mul::lemma_mul_is_commutative(hi, bb);
            }
            assert(g.main_constraint(w, i) == fsub(raw, raw));
        } else if o <= nl {
            let j = nl - o;
            assert(w[g.wire_limb_spec(i, j)] == g.gen_limb(raw, j));
            vstd::arithmetic::power2::lemma_pow2_pos((2 * j) as nat);
            vstd::arithmetic::div_mod::lemma_mod_bound(raw / (pow2((2 * j) as nat) as int), 4);
            vstd::arithmetic::div_mod::lemma_div_pos_is_pos(raw, pow2((2 * j) as nat) as int);
            lemma_limb_product_zero(g.gen_limb(raw, j), 4);
        } else {
            // Both recombination constraints: the limbs are the base-4 digits
            // of `raw`, so folding a range of them yields the matching half.
            let limbs = g.op_limbs(w, i);
            assert forall|j: int| 0 <= j < nl implies limbs[j] == (raw / (pow2(
                (2 * j) as nat) as int)) % 4 by {
                assert(w[g.wire_limb_spec(i, j)] == g.gen_limb(raw, j));
            }
            assert(2 * (nl / 2) == g.bits as int);
            if o == nl + 1 {
                lemma_combine_digit_range(limbs, raw, 0, nl / 2);
                assert(pow2(0) == 1) by {
                    vstd::arithmetic::power2::lemma2_to64();
                }
                vstd::arithmetic::div_mod::lemma_div_basics(raw);
                assert(combine_limbs(limbs.subrange(0, nl / 2)) == raw % bb);
                assert(w[g.wire_low_spec(i)] == raw % bb);
            } else {
                assert(o == nl + 2);
                lemma_combine_digit_range(limbs, raw, nl / 2, nl);
                assert(pow2((2 * (nl / 2)) as nat) == pow2(g.bits as nat));
                assert(2 * (nl - nl / 2) == g.bits as int);
                let hi_val = raw / bb;
                vstd::arithmetic::div_mod::lemma_multiply_divide_lt(raw, bb, bb);
                vstd::arithmetic::div_mod::lemma_div_pos_is_pos(raw, bb);
                assert(combine_limbs(limbs.subrange(nl / 2, nl)) == hi_val % bb);
                assert(hi_val % bb == hi_val) by {
                    vstd::arithmetic::div_mod::lemma_small_mod(hi_val as nat, bb as nat);
                }
                assert(w[g.wire_high_spec(i)] == hi_val);
            }
        }
    }
}

/// Embedding commutes with the limb range-check polynomial.
pub(crate) proof fn lemma_embed_limb_product(l: int, k: nat)
    ensures
        ext_limb_product(ext_embed(l), k) == ext_embed(limb_product(l, k)),
    decreases k,
{
    if k == 0 {
        assert(ext_one() == ext_embed(1));
    } else {
        lemma_embed_limb_product(l, (k - 1) as nat);
        crate::extension::lemma_embed_sub(l, k - 1);
        crate::extension::lemma_embed_mul(limb_product(l, (k - 1) as nat), fsub(l, k - 1));
    }
}

/// Embedding commutes with the limb fold.
pub(crate) proof fn lemma_embed_combine(ls: Seq<int>)
    ensures
        ext_combine_limbs(ls.map_values(|v: int| ext_embed(v))) == ext_embed(combine_limbs(ls)),
    decreases ls.len(),
{
    let els = ls.map_values(|v: int| ext_embed(v));
    if ls.len() == 0 {
        assert(ext_zero() == ext_embed(0));
    } else {
        lemma_embed_combine(ls.drop_first());
        assert(els.drop_first() =~= ls.drop_first().map_values(|v: int| ext_embed(v)));
        crate::extension::lemma_embed_mul(4, combine_limbs(ls.drop_first()));
        crate::extension::lemma_embed_add(fmul(4, combine_limbs(ls.drop_first())), ls[0]);
    }
}

/// Law (evaluator agreement): the direct and the soundness-amplified
/// evaluators state one algebraic identity — on a row of base-field values
/// embedded into the extension, every extension constraint is exactly the
/// embedding of the corresponding base constraint.
pub proof fn lemma_base_ext_constraints_agree(g: BinaryArithmeticGate, w: Seq<int>, c: int)
    requires
        g.wf_spec(),
        w.len() >= g.num_wires_spec(),
        0 <= c < g.num_constraints_spec(),
    ensures
        g.ext_constraint_value(w.map_values(|v: int| ext_embed(v)), c) == ext_embed(
            g.constraint_value(w, c),
        ),
{
    let ew = w.map_values(|v: int| ext_embed(v));
    let b = g.block_size();
    let nl = g.num_limbs_spec();
    vstd::arithmetic::div_mod::lemma_fundamental_div_mod(c, b);
    vstd::arithmetic::div_mod::lemma_mod_bound(c, b);
    assert(b * (g.num_ops as int) == (g.num_ops as int) * b) by (nonlinear_arith);
    vstd::arithmetic::div_mod::lemma_multiply_divide_lt(c, b, g.num_ops as int);
    let i = c / b;
    let o = c % b;
    assert(0 <= i < g.num_ops);
    lemma_arith_wire_bounds(g, i, 0);
    let bb = pow2(g.bits as nat) as int;
    if o == 0 {
        crate::extension::lemma_embed_mul(w[g.wire_high_spec(i)], bb);
        crate::extension::lemma_embed_add(fmul(w[g.wire_high_spec(i)], bb), w[g.wire_low_spec(i)]);
        crate::extension::lemma_embed_mul(w[g.wire_m0_spec(i)], w[g.wire_m1_spec(i)]);
        crate::extension::lemma_embed_add(fmul(w[g.wire_m0_spec(i)], w[g.wire_m1_spec(i)]),
            w[g.wire_addend_spec(i)]);
        crate::extension::lemma_embed_sub(
            fadd(fmul(w[g.wire_high_spec(i)], bb), w[g.wire_low_spec(i)]),
            fadd(fmul(w[g.wire_m0_spec(i)], w[g.wire_m1_spec(i)]), w[g.wire_addend_spec(i)]),
        );
    } else if o <= nl {
        let j = nl - o;
        lemma_arith_wire_bounds(g, i, j);
        lemma_embed_limb_product(w[g.wire_limb_spec(i, j)], 4);
    } else {
        assert forall|j: int| 0 <= j < nl implies g.ext_op_limbs(ew, i)[j] == ext_embed(
            g.op_limbs(w, i)[j]) by {
            lemma_arith_wire_bounds(g, i, j);
        }
        assert(g.ext_op_limbs(ew, i) =~= g.op_limbs(w, i).map_values(|v: int| ext_embed(v)));
        if o == nl + 1 {
            let half = g.op_limbs(w, i).subrange(0, nl / 2);
            assert(g.ext_op_limbs(ew, i).subrange(0, nl / 2) =~= half.map_values(
                |v: int| ext_embed(v)));
            lemma_embed_combine(half);
            crate::extension::lemma_embed_sub(combine_limbs(half), w[g.wire_low_spec(i)]);
        } else {
            let half = g.op_limbs(w, i).subrange(nl / 2, nl);
            assert(g.ext_op_limbs(ew, i).subrange(nl / 2, nl) =~= half.map_values(
                |v: int| ext_embed(v)));
            lemma_embed_combine(half);
            crate::extension::lemma_embed_sub(combine_limbs(half), w[g.wire_high_spec(i)]);
        }
    }
}

/// Law (limb round-trip): recombining the little-endian base-4 digits of any
/// value of at most 32 bits through the gates' big-endian fold reproduces the
/// value exactly.
pub proof fn lemma_limb_roundtrip(ls: Seq<int>, v: int, n: int)
    requires
        ls.len() == n,
        0 <= n,
        2 * n <= 32,
        0 <= v < pow2((2 * n) as nat) as int,
        forall|j: int|
            0 <= j < n ==> ls[j] == (v / (pow2((2 * j) as nat) as int)) % 4,
    ensures
        combine_limbs(ls) == v,
{
    lemma_combine_digit_range(ls, v, 0, n);
    assert(ls.subrange(0, n) =~= ls);
    vstd::arithmetic::power2::lemma2_to64();
    vstd::arithmetic::div_mod::lemma_small_mod(v as nat, pow2((2 * n) as nat));
}

} // verus!
