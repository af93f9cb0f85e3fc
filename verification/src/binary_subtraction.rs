//! A gate performing a bounded-width subtraction with borrow: given `x`, `y`
//! and `borrow_in`, it produces `result = x - y - borrow_in` and, on
//! underflow, a new borrow, so that `result` always fits `bits` bits. Inputs
//! are not range-checked here. Several independent operations are packed into
//! one row; the result is decomposed into base-4 limbs that are range-checked
//! by a vanishing polynomial and recombined.

use crate::binary_arithmetic::{
    combine_limbs, ext_combine_limbs, ext_limb_product, lemma_block_offset,
    lemma_combine_digit_range, lemma_combine_step, lemma_ext_combine_step,
    lemma_limb_product_zero, limb_product, min_spec,
};
use crate::builder::{
    lemma_extends_target, lemma_extends_trans, lemma_targets_hold_extends, target_vals,
    targets_hold, CircuitBuilder, ExtensionTarget,
};
use crate::circuit::{CircuitConfig, GeneratedValues, PartitionWitness, Wire};
use crate::extension::{
    ext_add, ext_all_wf, ext_embed, ext_mul, ext_one, ext_sub, ext_vals, ext_zero, Ext4, ExtElem,
};
use crate::field::{all_wf, fadd, felt_vals, fmul, fsub, Felt, FIELD_ORDER};
use vstd::arithmetic::power2::pow2;
use vstd::prelude::*;

verus! {

/// A bounded-width subtraction gate: `num_ops` independent operations per
/// row, each on `bits`-bit values.
#[derive(Clone, Copy, Debug, PartialEq, Eq, Structural)]
pub struct BinarySubtractionGate {
    pub num_ops: usize,
    pub bits: usize,
}

impl BinarySubtractionGate {
    /// Validity of a configuration: an even width of at most 32 bits, and a
    /// total wire count that fits the machine.
    pub open spec fn wf_spec(self) -> bool {
        &&& 2 <= self.bits <= 32
        &&& self.bits % 2 == 0
        &&& self.num_ops * (5 + self.num_limbs_spec()) <= usize::MAX
    }

    /// Only the `bits`-bit result is decomposed, into `bits / 2` limbs.
    pub open spec fn num_limbs_spec(self) -> int {
        self.bits as int / 2
    }

    /// Constraints per operation: the borrow identity, one vanishing
    /// polynomial per limb, the recombination, and the borrow's booleanity.
    pub open spec fn block_size(self) -> int {
        self.num_limbs_spec() + 3
    }

    pub open spec fn num_wires_spec(self) -> int {
        self.num_ops * (5 + self.num_limbs_spec())
    }

    pub open spec fn num_constraints_spec(self) -> int {
        self.num_ops * self.block_size()
    }

    pub open spec fn wire_x_spec(self, i: int) -> int {
        5 * i
    }

    pub open spec fn wire_y_spec(self, i: int) -> int {
        5 * i + 1
    }

    pub open spec fn wire_borrow_spec(self, i: int) -> int {
        5 * i + 2
    }

    pub open spec fn wire_result_spec(self, i: int) -> int {
        5 * i + 3
    }

    pub open spec fn wire_borrow_out_spec(self, i: int) -> int {
        5 * i + 4
    }

    pub open spec fn wire_limb_spec(self, i: int, j: int) -> int {
        5 * self.num_ops + self.num_limbs_spec() * i + j
    }

    /// The limb values of operation `i`, in little-endian order.
    pub open spec fn op_limbs(self, w: Seq<int>, i: int) -> Seq<int> {
        Seq::new(self.num_limbs_spec() as nat, |j: int| w[self.wire_limb_spec(i, j)])
    }

    /// The borrow identity of operation `i`:
    /// `result - ((x - y - borrow_in) + 2^bits * borrow_out)`.
    pub open spec fn main_constraint(self, w: Seq<int>, i: int) -> int {
        fsub(
            w[self.wire_result_spec(i)],
            fadd(
                fsub(fsub(w[self.wire_x_spec(i)], w[self.wire_y_spec(i)]),
                    w[self.wire_borrow_spec(i)]),
                fmul(pow2(self.bits as nat) as int, w[self.wire_borrow_out_spec(i)]),
            ),
        )
    }

    /// The range-check polynomial of limb `j` of operation `i`.
    pub open spec fn limb_constraint(self, w: Seq<int>, i: int, j: int) -> int {
        limb_product(w[self.wire_limb_spec(i, j)], 4)
    }

    /// Recombination of the result from its limbs.
    pub open spec fn recomb_constraint(self, w: Seq<int>, i: int) -> int {
        fsub(
            combine_limbs(self.op_limbs(w, i).subrange(0, self.num_limbs_spec())),
            w[self.wire_result_spec(i)],
        )
    }

    /// Booleanity of the outgoing borrow: `borrow_out * (1 - borrow_out)`.
    pub open spec fn borrow_constraint(self, w: Seq<int>, i: int) -> int {
        fmul(w[self.wire_borrow_out_spec(i)], fsub(1, w[self.wire_borrow_out_spec(i)]))
    }

    /// Value of the `c`-th emitted constraint on witness values `w`. Each
    /// operation contributes one block: the borrow identity, then the limb
    /// range checks with the highest limb first, then the recombination, then
    /// the borrow's booleanity.
    pub open spec fn constraint_value(self, w: Seq<int>, c: int) -> int {
        let i = c / self.block_size();
        let o = c % self.block_size();
        if o == 0 {
            self.main_constraint(w, i)
        } else if o <= self.num_limbs_spec() {
            self.limb_constraint(w, i, self.num_limbs_spec() - o)
        } else if o == self.num_limbs_spec() + 1 {
            self.recomb_constraint(w, i)
        } else {
            self.borrow_constraint(w, i)
        }
    }

    /// The number of operations that fit a row: each uses `5 + num_limbs`
    /// wires in total, of which the 5 inputs and outputs must be routable.
    pub fn num_ops(config: &CircuitConfig, bits: usize) -> (r: usize)
        requires
            2 <= bits <= 32,
            bits % 2 == 0,
        ensures
            r == min_spec(config.num_wires as int / (5 + bits as int / 2),
                config.num_routed_wires as int / 5),
            r * (5 + bits / 2) <= config.num_wires,
    {
        let wires_per_op: usize = 5 + bits / 2;
        let routed_wires_per_op: usize = 5;
        let by_total = config.num_wires / wires_per_op;
        let by_routed = config.num_routed_wires / routed_wires_per_op;
        let r = if by_total < by_routed {
            by_total
        } else {
            by_routed
        };
        proof {
            vstd::arithmetic::div_mod::lemma_fundamental_div_mod(config.num_wires as int,
                wires_per_op as int);
            vstd::arithmetic::mul::lemma_mul_inequality(r as int, by_total as int,
                wires_per_op as int);
        }
        r
    }

    pub fn new_from_config(config: &CircuitConfig, bits: usize) -> (r: BinarySubtractionGate)
        requires
            2 <= bits <= 32,
            bits % 2 == 0,
        ensures
            r.wf_spec(),
            r.bits == bits,
            r.num_ops == min_spec(config.num_wires as int / (5 + bits as int / 2),
                config.num_routed_wires as int / 5),
    {
        let num_ops = Self::num_ops(config, bits);
        BinarySubtractionGate { num_ops, bits }
    }

    /// Limbs are base-4 digits.
    pub fn limb_bits() -> (r: usize)
        ensures
            r == 2,
    {
        2
    }

    pub fn num_limbs(&self) -> (r: usize)
        requires
            self.bits <= 32,
        ensures
            r == self.num_limbs_spec(),
    {
        self.bits / Self::limb_bits()
    }

    pub fn wire_ith_input_x(&self, i: usize) -> (r: usize)
        requires
            self.wf_spec(),
            i < self.num_ops,
        ensures
            r == self.wire_x_spec(i as int),
    {
        proof {
            lemma_sub_wire_bounds(*self, i as int, 0);
        }
        5 * i
    }

    pub fn wire_ith_input_y(&self, i: usize) -> (r: usize)
        requires
            self.wf_spec(),
            i < self.num_ops,
        ensures
            r == self.wire_y_spec(i as int),
    {
        proof {
            lemma_sub_wire_bounds(*self, i as int, 0);
        }
        5 * i + 1
    }

    pub fn wire_ith_input_borrow(&self, i: usize) -> (r: usize)
        requires
            self.wf_spec(),
            i < self.num_ops,
        ensures
            r == self.wire_borrow_spec(i as int),
    {
        proof {
            lemma_sub_wire_bounds(*self, i as int, 0);
        }
        5 * i + 2
    }

    pub fn wire_ith_output_result(&self, i: usize) -> (r: usize)
        requires
            self.wf_spec(),
            i < self.num_ops,
        ensures
            r == self.wire_result_spec(i as int),
    {
        proof {
            lemma_sub_wire_bounds(*self, i as int, 0);
        }
        5 * i + 3
    }

    pub fn wire_ith_output_borrow(&self, i: usize) -> (r: usize)
        requires
            self.wf_spec(),
            i < self.num_ops,
        ensures
            r == self.wire_borrow_out_spec(i as int),
    {
        proof {
            lemma_sub_wire_bounds(*self, i as int, 0);
        }
        5 * i + 4
    }

    pub fn wire_ith_output_jth_limb(&self, i: usize, j: usize) -> (r: usize)
        requires
            self.wf_spec(),
            i < self.num_ops,
            j < self.num_limbs_spec(),
        ensures
            r == self.wire_limb_spec(i as int, j as int),
    {
        proof {
            lemma_sub_wire_bounds(*self, i as int, j as int);
        }
        let nl = self.num_limbs();
        5 * self.num_ops + nl * i + j
    }

    pub fn num_wires(&self) -> (r: usize)
        requires
            self.wf_spec(),
        ensures
            r == self.num_wires_spec(),
    {
        let nl = self.num_limbs();
        self.num_ops * (5 + nl)
    }

    pub fn num_constants(&self) -> (r: usize)
        ensures
            r == 0,
    {
        0
    }

    /// Maximal total degree of any emitted constraint: the limb range check
    /// is a product of `2^limb_bits` linear factors.
    pub fn degree(&self) -> (r: usize)
        ensures
            r == 4,
    {
        4
    }

    pub fn num_constraints(&self) -> (r: usize)
        requires
            self.wf_spec(),
        ensures
            r == self.num_constraints_spec(),
    {
        proof {
            assert(self.num_ops * (self.bits as int / 2 + 3) <= self.num_ops * (5 + self.bits as int
                / 2)) by (nonlinear_arith)
                requires
                    self.num_ops >= 0,
            ;
        }
        let nl = self.num_limbs();
        self.num_ops * (nl + 3)
    }

    /// Evaluates every constraint on one row of base-field witness values.
    #[verifier::rlimit(100)]
    pub fn eval_unfiltered_base(&self, wires: &Vec<Felt>) -> (r: Vec<Felt>)
        requires
            self.wf_spec(),
            wires@.len() >= self.num_wires_spec(),
            all_wf(wires@),
        ensures
            r@.len() == self.num_constraints_spec(),
            all_wf(r@),
            forall|c: int|
                0 <= c < r@.len() ==> (#[trigger] r@[c])@ == self.constraint_value(
                    felt_vals(wires@),
                    c,
                ),
    {
        let w = Ghost(felt_vals(wires@));
        let nl = self.num_limbs();
        let block = Ghost(self.block_size());
        proof {
            crate::field::lemma_pow2_le_order(self.bits as nat);
        }
        let base = Felt { v: crate::field::pow2_u64((self.bits) as u64) };
        let base4 = Felt { v: 4 };
        let one = Felt::one();
        let mut constraints: Vec<Felt> = Vec::new();
        let mut i: usize = 0;
        while i < self.num_ops
            invariant
                self.wf_spec(),
                wires@.len() >= self.num_wires_spec(),
                all_wf(wires@),
                w@ == felt_vals(wires@),
                nl == self.num_limbs_spec(),
                block@ == self.block_size(),
                base.wf(),
                base@ == pow2(self.bits as nat) as int,
                base4.wf(),
                base4@ == 4,
                one.wf(),
                one@ == 1,
                i <= self.num_ops,
                constraints@.len() == i * block@,
                all_wf(constraints@),
                forall|c: int|
                    0 <= c < constraints@.len() ==> (#[trigger] constraints@[c])@
                        == self.constraint_value(w@, c),
            decreases self.num_ops - i,
        {
            proof {
                lemma_sub_wire_bounds(*self, i as int, 0);
                assert(i * block@ + block@ <= self.num_ops * block@) by (nonlinear_arith)
                    requires
                        0 <= i < self.num_ops as int,
                        block@ == self.block_size(),
                        self.block_size() >= 0,
                ;
                assert(self.num_ops * self.block_size() <= self.num_ops * (5
                    + self.num_limbs_spec())) by (nonlinear_arith)
                    requires
                        self.num_ops >= 0,
                        self.block_size() == self.num_limbs_spec() + 3,
                ;
            }
            let input_x = wires[self.wire_ith_input_x(i)];
            let input_y = wires[self.wire_ith_input_y(i)];
            let input_borrow = wires[self.wire_ith_input_borrow(i)];
            let output_result = wires[self.wire_ith_output_result(i)];
            let output_borrow = wires[self.wire_ith_output_borrow(i)];

            let result_initial = input_x.sub(input_y).sub(input_borrow);
            proof {
                lemma_block_offset(constraints@.len() as int, i as int, 0, block@);
            }
            constraints.push(output_result.sub(result_initial.add(base.mul(output_borrow))));

            let mut combined_limbs = Felt::zero();
            let mut j: usize = nl;
            while j > 0
                invariant
                    self.wf_spec(),
                    wires@.len() >= self.num_wires_spec(),
                    all_wf(wires@),
                    w@ == felt_vals(wires@),
                    nl == self.num_limbs_spec(),
                    block@ == self.block_size(),
                    base4.wf(),
                    base4@ == 4,
                    i < self.num_ops,
                    j <= nl,
                    constraints@.len() == i * block@ + 1 + (nl - j),
                    all_wf(constraints@),
                    forall|c: int|
                        0 <= c < constraints@.len() ==> (#[trigger] constraints@[c])@
                            == self.constraint_value(w@, c),
                    combined_limbs.wf(),
                    combined_limbs@ == combine_limbs(
                        self.op_limbs(w@, i as int).subrange(j as int, nl as int),
                    ),
                decreases j,
            {
                j -= 1;
                proof {
                    lemma_sub_wire_bounds(*self, i as int, j as int);
                }
                let this_limb = wires[self.wire_ith_output_jth_limb(i, j)];
                let mut product = Felt::one();
                let mut x: u64 = 0;
                while x < 4
                    invariant
                        this_limb.wf(),
                        product.wf(),
                        x <= 4,
                        product@ == limb_product(this_limb@, x as nat),
                    decreases 4 - x,
                {
                    product = product.mul(this_limb.sub(Felt { v: x }));
                    x += 1;
                }
                proof {
                    lemma_block_offset(constraints@.len() as int, i as int, nl - j, block@);
                    assert(self.op_limbs(w@, i as int)[j as int] == w@[self.wire_limb_spec(
                        i as int, j as int)]);
                }
                constraints.push(product);

                proof {
                    lemma_combine_step(self.op_limbs(w@, i as int), j as int, nl as int);
                }
                combined_limbs = base4.mul(combined_limbs).add(this_limb);
            }
            proof {
                lemma_block_offset(constraints@.len() as int, i as int, nl as int + 1, block@);
                assert(self.op_limbs(w@, i as int).subrange(0, nl as int) =~= self.op_limbs(w@,
                    i as int).subrange(0, self.num_limbs_spec()));
            }
            constraints.push(combined_limbs.sub(output_result));
            proof {
                lemma_block_offset(constraints@.len() as int, i as int, nl as int + 2, block@);
            }
            constraints.push(output_borrow.mul(one.sub(output_borrow)));
            proof {
                assert((i as int + 1) * block@ == i as int * block@ + block@) by (nonlinear_arith);
            }
            i += 1;
        }
        constraints
    }
}

impl BinarySubtractionGate {
    /// The limb values of operation `i` over the extension field.
    pub open spec fn ext_op_limbs(self, w: Seq<Ext4>, i: int) -> Seq<Ext4> {
        Seq::new(self.num_limbs_spec() as nat, |j: int| w[self.wire_limb_spec(i, j)])
    }

    /// The borrow identity over the extension field.
    pub open spec fn ext_main_constraint(self, w: Seq<Ext4>, i: int) -> Ext4 {
        ext_sub(
            w[self.wire_result_spec(i)],
            ext_add(
                ext_sub(ext_sub(w[self.wire_x_spec(i)], w[self.wire_y_spec(i)]),
                    w[self.wire_borrow_spec(i)]),
                ext_mul(ext_embed(pow2(self.bits as nat) as int),
                    w[self.wire_borrow_out_spec(i)]),
            ),
        )
    }

    /// The limb range check over the extension field.
    pub open spec fn ext_limb_constraint(self, w: Seq<Ext4>, i: int, j: int) -> Ext4 {
        ext_limb_product(w[self.wire_limb_spec(i, j)], 4)
    }

    /// The recombination over the extension field.
    pub open spec fn ext_recomb_constraint(self, w: Seq<Ext4>, i: int) -> Ext4 {
        ext_sub(
            ext_combine_limbs(self.ext_op_limbs(w, i).subrange(0, self.num_limbs_spec())),
            w[self.wire_result_spec(i)],
        )
    }

    /// Booleanity of the outgoing borrow over the extension field.
    pub open spec fn ext_borrow_constraint(self, w: Seq<Ext4>, i: int) -> Ext4 {
        ext_mul(w[self.wire_borrow_out_spec(i)], ext_sub(ext_one(),
            w[self.wire_borrow_out_spec(i)]))
    }

    /// Value of the `c`-th constraint over the extension field; same block
    /// layout as `constraint_value`.
    pub open spec fn ext_constraint_value(self, w: Seq<Ext4>, c: int) -> Ext4 {
        let i = c / self.block_size();
        let o = c % self.block_size();
        if o == 0 {
            self.ext_main_constraint(w, i)
        } else if o <= self.num_limbs_spec() {
            self.ext_limb_constraint(w, i, self.num_limbs_spec() - o)
        } else if o == self.num_limbs_spec() + 1 {
            self.ext_recomb_constraint(w, i)
        } else {
            self.ext_borrow_constraint(w, i)
        }
    }

    /// Evaluates every constraint on one row of extension-field values.
    #[verifier::rlimit(100)]
    pub fn eval_unfiltered(&self, wires: &Vec<ExtElem>) -> (r: Vec<ExtElem>)
        requires
            self.wf_spec(),
            wires@.len() >= self.num_wires_spec(),
            ext_all_wf(wires@),
        ensures
            r@.len() == self.num_constraints_spec(),
            ext_all_wf(r@),
            forall|c: int|
                0 <= c < r@.len() ==> (#[trigger] r@[c])@ == self.ext_constraint_value(
                    ext_vals(wires@),
                    c,
                ),
    {
        let w = Ghost(ext_vals(wires@));
        let nl = self.num_limbs();
        let block = Ghost(self.block_size());
        proof {
            crate::field::lemma_pow2_le_order(self.bits as nat);
        }
        let base = ExtElem::from_base(Felt { v: crate::field::pow2_u64((self.bits) as u64) });
        let base4 = ExtElem::from_base(Felt { v: 4 });
        let one = ExtElem::one();
        let mut constraints: Vec<ExtElem> = Vec::new();
        let mut i: usize = 0;
        while i < self.num_ops
            invariant
                self.wf_spec(),
                wires@.len() >= self.num_wires_spec(),
                ext_all_wf(wires@),
                w@ == ext_vals(wires@),
                nl == self.num_limbs_spec(),
                block@ == self.block_size(),
                base.wf(),
                base@ == ext_embed(pow2(self.bits as nat) as int),
                base4.wf(),
                base4@ == ext_embed(4),
                one.wf(),
                one@ == ext_one(),
                i <= self.num_ops,
                constraints@.len() == i * block@,
                ext_all_wf(constraints@),
                forall|c: int|
                    0 <= c < constraints@.len() ==> (#[trigger] constraints@[c])@
                        == self.ext_constraint_value(w@, c),
            decreases self.num_ops - i,
        {
            proof {
                lemma_sub_wire_bounds(*self, i as int, 0);
                assert(i * block@ + block@ <= self.num_ops * block@) by (nonlinear_arith)
                    requires
                        0 <= i < self.num_ops as int,
                        block@ == self.block_size(),
                        self.block_size() >= 0,
                ;
                assert(self.num_ops * self.block_size() <= self.num_ops * (5
                    + self.num_limbs_spec())) by (nonlinear_arith)
                    requires
                        self.num_ops >= 0,
                        self.block_size() == self.num_limbs_spec() + 3,
                ;
            }
            let input_x = wires[self.wire_ith_input_x(i)];
            let input_y = wires[self.wire_ith_input_y(i)];
            let input_borrow = wires[self.wire_ith_input_borrow(i)];
            let output_result = wires[self.wire_ith_output_result(i)];
            let output_borrow = wires[self.wire_ith_output_borrow(i)];

            let result_initial = input_x.sub(input_y).sub(input_borrow);
            proof {
                lemma_block_offset(constraints@.len() as int, i as int, 0, block@);
            }
            constraints.push(output_result.sub(result_initial.add(base.mul(output_borrow))));

            let mut combined_limbs = ExtElem::zero();
            let mut j: usize = nl;
            while j > 0
                invariant
                    self.wf_spec(),
                    wires@.len() >= self.num_wires_spec(),
                    ext_all_wf(wires@),
                    w@ == ext_vals(wires@),
                    nl == self.num_limbs_spec(),
                    block@ == self.block_size(),
                    base4.wf(),
                    base4@ == ext_embed(4),
                    i < self.num_ops,
                    j <= nl,
                    constraints@.len() == i * block@ + 1 + (nl - j),
                    ext_all_wf(constraints@),
                    forall|c: int|
                        0 <= c < constraints@.len() ==> (#[trigger] constraints@[c])@
                            == self.ext_constraint_value(w@, c),
                    combined_limbs.wf(),
                    combined_limbs@ == ext_combine_limbs(
                        self.ext_op_limbs(w@, i as int).subrange(j as int, nl as int),
                    ),
                decreases j,
            {
                j -= 1;
                proof {
                    lemma_sub_wire_bounds(*self, i as int, j as int);
                }
                let this_limb = wires[self.wire_ith_output_jth_limb(i, j)];
                let mut product = ExtElem::one();
                let mut x: u64 = 0;
                while x < 4
                    invariant
                        this_limb.wf(),
                        product.wf(),
                        x <= 4,
                        product@ == ext_limb_product(this_limb@, x as nat),
                    decreases 4 - x,
                {
                    product = product.mul(this_limb.sub(ExtElem::from_base(Felt { v: x })));
                    x += 1;
                }
                proof {
                    lemma_block_offset(constraints@.len() as int, i as int, nl - j, block@);
                    assert(self.ext_op_limbs(w@, i as int)[j as int] == w@[self.wire_limb_spec(
                        i as int, j as int)]);
                }
                constraints.push(product);

                proof {
                    lemma_ext_combine_step(self.ext_op_limbs(w@, i as int), j as int, nl as int);
                }
                combined_limbs = base4.mul(combined_limbs).add(this_limb);
            }
            proof {
                lemma_block_offset(constraints@.len() as int, i as int, nl as int + 1, block@);
                assert(self.ext_op_limbs(w@, i as int).subrange(0, nl as int) =~= self.ext_op_limbs(
                    w@, i as int).subrange(0, self.num_limbs_spec()));
            }
            constraints.push(combined_limbs.sub(output_result));
            proof {
                lemma_block_offset(constraints@.len() as int, i as int, nl as int + 2, block@);
            }
            constraints.push(output_borrow.mul(one.sub(output_borrow)));
            proof {
                assert((i as int + 1) * block@ == i as int * block@ + block@) by (nonlinear_arith);
            }
            i += 1;
        }
        constraints
    }

    /// Builds the same constraints symbolically into a recursion circuit;
    /// values mirror `eval_unfiltered` and formal degrees stay within
    /// `degree()`.
    #[verifier::rlimit(100)]
    pub fn eval_unfiltered_recursively(
        &self,
        builder: &mut CircuitBuilder,
        wires: &Vec<ExtensionTarget>,
    ) -> (r: Vec<ExtensionTarget>)
        requires
            self.wf_spec(),
            old(builder).wf(),
            wires@.len() >= self.num_wires_spec(),
            targets_hold(*old(builder), wires@, target_vals(*old(builder), wires@), 1),
        ensures
            final(builder).wf(),
            final(builder).extends(*old(builder)),
            r@.len() == self.num_constraints_spec(),
            forall|c: int|
                0 <= c < r@.len() ==> final(builder).valid_target(#[trigger] r@[c])
                    && final(builder).value_spec(r@[c]) == self.ext_constraint_value(
                    target_vals(*old(builder), wires@),
                    c,
                ) && final(builder).degree_spec(r@[c]) <= 4,
    {
        let w = Ghost(target_vals(*builder, wires@));
        let b0 = Ghost(*builder);
        let nl = self.num_limbs();
        let block = Ghost(self.block_size());
        proof {
            crate::field::lemma_pow2_le_order(self.bits as nat);
        }
        let base_t = builder.constant_extension(
            ExtElem::from_base(Felt { v: crate::field::pow2_u64((self.bits) as u64) }),
        );
        proof {
            lemma_targets_hold_extends(*builder, b0@, wires@, w@, 1);
        }
        let base4_t = builder.constant_extension(ExtElem::from_base(Felt { v: 4 }));
        proof {
            lemma_targets_hold_extends(*builder, b0@, wires@, w@, 1);
        }
        let one_t = builder.one_extension();
        proof {
            lemma_targets_hold_extends(*builder, b0@, wires@, w@, 1);
        }
        let mut constraints: Vec<ExtensionTarget> = Vec::new();
        let mut i: usize = 0;
        while i < self.num_ops
            invariant
                self.wf_spec(),
                wires@.len() >= self.num_wires_spec(),
                nl == self.num_limbs_spec(),
                block@ == self.block_size(),
                builder.wf(),
                builder.extends(b0@),
                targets_hold(*builder, wires@, w@, 1),
                builder.valid_target(base_t),
                builder.value_spec(base_t) == ext_embed(pow2(self.bits as nat) as int),
                builder.degree_spec(base_t) == 0,
                builder.valid_target(base4_t),
                builder.value_spec(base4_t) == ext_embed(4),
                builder.degree_spec(base4_t) == 0,
                builder.valid_target(one_t),
                builder.value_spec(one_t) == ext_one(),
                builder.degree_spec(one_t) == 0,
                i <= self.num_ops,
                constraints@.len() == i * block@,
                forall|c: int|
                    0 <= c < constraints@.len() ==> builder.valid_target(#[trigger] constraints@[c])
                        && builder.value_spec(constraints@[c]) == self.ext_constraint_value(w@, c)
                        && builder.degree_spec(constraints@[c]) <= 4,
            decreases self.num_ops - i,
        {
            proof {
                lemma_sub_wire_bounds(*self, i as int, 0);
                assert(i * block@ + block@ <= self.num_ops * block@) by (nonlinear_arith)
                    requires
                        0 <= i < self.num_ops as int,
                        block@ == self.block_size(),
                        self.block_size() >= 0,
                ;
                assert(self.num_ops * self.block_size() <= self.num_ops * (5
                    + self.num_limbs_spec())) by (nonlinear_arith)
                    requires
                        self.num_ops >= 0,
                        self.block_size() == self.num_limbs_spec() + 3,
                ;
            }
            let input_x = wires[self.wire_ith_input_x(i)];
            let input_y = wires[self.wire_ith_input_y(i)];
            let input_borrow = wires[self.wire_ith_input_borrow(i)];
            let output_result = wires[self.wire_ith_output_result(i)];
            let output_borrow = wires[self.wire_ith_output_borrow(i)];

            let pre = Ghost(*builder);
            let diff_xy = builder.sub_extension(input_x, input_y);
            let result_initial = builder.sub_extension(diff_xy, input_borrow);
            let computed_output = builder.mul_add_extension(base_t, output_borrow, result_initial);
            let main_t = builder.sub_extension(output_result, computed_output);
            proof {
                lemma_sub_reestablish(*builder, pre@, b0@, wires@, w@, constraints@, *self,
                    base_t, base4_t, one_t);
                lemma_block_offset(constraints@.len() as int, i as int, 0, block@);
            }
            constraints.push(main_t);

            let prez = Ghost(*builder);
            let mut combined_limbs = builder.zero_extension();
            proof {
                lemma_sub_reestablish(*builder, prez@, b0@, wires@, w@, constraints@, *self,
                    base_t, base4_t, one_t);
            }
            let mut j: usize = nl;
            while j > 0
                invariant
                    self.wf_spec(),
                    wires@.len() >= self.num_wires_spec(),
                    nl == self.num_limbs_spec(),
                    block@ == self.block_size(),
                    builder.wf(),
                    builder.extends(b0@),
                    targets_hold(*builder, wires@, w@, 1),
                    builder.valid_target(base_t),
                    builder.value_spec(base_t) == ext_embed(pow2(self.bits as nat) as int),
                    builder.degree_spec(base_t) == 0,
                    builder.valid_target(base4_t),
                    builder.value_spec(base4_t) == ext_embed(4),
                    builder.degree_spec(base4_t) == 0,
                    builder.valid_target(one_t),
                    builder.value_spec(one_t) == ext_one(),
                    builder.degree_spec(one_t) == 0,
                    i < self.num_ops,
                    j <= nl,
                    constraints@.len() == i * block@ + 1 + (nl - j),
                    forall|c: int|
                        0 <= c < constraints@.len() ==> builder.valid_target(
                            #[trigger] constraints@[c]) && builder.value_spec(constraints@[c])
                            == self.ext_constraint_value(w@, c) && builder.degree_spec(
                            constraints@[c]) <= 4,
                    builder.valid_target(combined_limbs),
                    builder.degree_spec(combined_limbs) <= 1,
                    builder.value_spec(combined_limbs) == ext_combine_limbs(
                        self.ext_op_limbs(w@, i as int).subrange(j as int, nl as int),
                    ),
                decreases j,
            {
                j -= 1;
                proof {
                    lemma_sub_wire_bounds(*self, i as int, j as int);
                }
                let this_limb = wires[self.wire_ith_output_jth_limb(i, j)];
                let mut product = builder.one_extension();
                proof {
                    lemma_sub_reestablish_inner(*builder, *builder, b0@, wires@, w@, constraints@,
                        *self, base_t, base4_t, one_t, combined_limbs);
                }
                let mut x: u64 = 0;
                while x < 4
                    invariant
                        self.wf_spec(),
                        nl == self.num_limbs_spec(),
                        block@ == self.block_size(),
                        wires@.len() >= self.num_wires_spec(),
                        i < self.num_ops,
                        j < nl,
                        builder.wf(),
                        builder.extends(b0@),
                        targets_hold(*builder, wires@, w@, 1),
                        builder.valid_target(base_t),
                        builder.value_spec(base_t) == ext_embed(pow2(self.bits as nat) as int),
                        builder.degree_spec(base_t) == 0,
                        builder.valid_target(base4_t),
                        builder.value_spec(base4_t) == ext_embed(4),
                        builder.degree_spec(base4_t) == 0,
                        builder.valid_target(one_t),
                        builder.value_spec(one_t) == ext_one(),
                        builder.degree_spec(one_t) == 0,
                        forall|c: int|
                            0 <= c < constraints@.len() ==> builder.valid_target(
                                #[trigger] constraints@[c]) && builder.value_spec(constraints@[c])
                                == self.ext_constraint_value(w@, c) && builder.degree_spec(
                                constraints@[c]) <= 4,
                        builder.valid_target(combined_limbs),
                        builder.degree_spec(combined_limbs) <= 1,
                        builder.value_spec(combined_limbs) == ext_combine_limbs(
                            self.ext_op_limbs(w@, i as int).subrange(j as int + 1, nl as int),
                        ),
                        x <= 4,
                        builder.valid_target(product),
                        builder.degree_spec(product) <= x,
                        builder.value_spec(product) == ext_limb_product(w@[self.wire_limb_spec(
                            i as int, j as int)], x as nat),
                        builder.valid_target(this_limb),
                        builder.value_spec(this_limb) == w@[self.wire_limb_spec(i as int,
                            j as int)],
                        builder.degree_spec(this_limb) <= 1,
                    decreases 4 - x,
                {
                    let pre2 = Ghost(*builder);
                    let x_t = builder.constant_extension(ExtElem::from_base(Felt { v: x }));
                    let diff_t = builder.sub_extension(this_limb, x_t);
                    let new_product = builder.mul_extension(product, diff_t);
                    proof {
                        lemma_sub_reestablish_inner(*builder, pre2@, b0@, wires@, w@, constraints@,
                            *self, base_t, base4_t, one_t, combined_limbs);
                    }
                    product = new_product;
                    x += 1;
                }
                proof {
                    lemma_block_offset(constraints@.len() as int, i as int, nl - j, block@);
                    assert(self.ext_op_limbs(w@, i as int)[j as int] == w@[self.wire_limb_spec(
                        i as int, j as int)]);
                }
                constraints.push(product);

                proof {
                    lemma_ext_combine_step(self.ext_op_limbs(w@, i as int), j as int, nl as int);
                }
                let pre3 = Ghost(*builder);
                combined_limbs = builder.mul_add_extension(base4_t, combined_limbs, this_limb);
                proof {
                    lemma_sub_reestablish(*builder, pre3@, b0@, wires@, w@, constraints@, *self,
                        base_t, base4_t, one_t);
                }
            }
            proof {
                lemma_block_offset(constraints@.len() as int, i as int, nl as int + 1, block@);
                assert(self.ext_op_limbs(w@, i as int).subrange(0, nl as int) =~= self.ext_op_limbs(
                    w@, i as int).subrange(0, self.num_limbs_spec()));
            }
            let pre4 = Ghost(*builder);
            let recomb_t = builder.sub_extension(combined_limbs, output_result);
            proof {
                lemma_sub_reestablish(*builder, pre4@, b0@, wires@, w@, constraints@, *self,
                    base_t, base4_t, one_t);
            }
            constraints.push(recomb_t);
            proof {
                lemma_block_offset(constraints@.len() as int, i as int, nl as int + 2, block@);
            }
            let pre5 = Ghost(*builder);
            let not_borrow = builder.sub_extension(one_t, output_borrow);
            let bool_t = builder.mul_extension(output_borrow, not_borrow);
            proof {
                lemma_sub_reestablish(*builder, pre5@, b0@, wires@, w@, constraints@, *self,
                    base_t, base4_t, one_t);
            }
            constraints.push(bool_t);
            proof {
                assert((i as int + 1) * block@ == i as int * block@ + block@) by (nonlinear_arith);
            }
            i += 1;
        }
        constraints
    }
}

impl BinarySubtractionGate {
    /// The raw difference `x - y - borrow_in` in the field.
    pub open spec fn raw_diff(self, x: int, y: int, b: int) -> int {
        fsub(fsub(x, y), b)
    }

    /// The outgoing borrow: set exactly when the canonical representative of
    /// the raw difference does not fit `bits` bits, i.e. when the integer
    /// difference went negative for in-range inputs. The boundary value
    /// `2^bits` itself never arises from in-range inputs, and counting it as
    /// underflow keeps every representative at or above `2^bits` on one side.
    pub open spec fn gen_borrow(self, raw: int) -> int {
        if raw >= pow2(self.bits as nat) as int {
            1
        } else {
            0
        }
    }

    /// The `bits`-bit result: the raw difference, shifted up by `2^bits` on
    /// underflow.
    pub open spec fn gen_result(self, raw: int) -> int {
        if raw >= pow2(self.bits as nat) as int {
            fadd(raw, pow2(self.bits as nat) as int)
        } else {
            raw
        }
    }

    /// The `j`-th base-4 limb of the result's canonical representative.
    pub open spec fn gen_limb(self, res: int, j: int) -> int {
        (res / (pow2((2 * j) as nat) as int)) % 4
    }

    /// The raw difference of operation `i` as the row states it.
    pub open spec fn op_raw(self, w: Seq<int>, i: int) -> int {
        self.raw_diff(w[self.wire_x_spec(i)], w[self.wire_y_spec(i)], w[self.wire_borrow_spec(i)])
    }

    /// The inputs of operation `i` fit `bits` bits and the incoming borrow is
    /// boolean.
    pub open spec fn op_inputs_in_range(self, w: Seq<int>, i: int) -> bool {
        &&& 0 <= w[self.wire_x_spec(i)] < pow2(self.bits as nat) as int
        &&& 0 <= w[self.wire_y_spec(i)] < pow2(self.bits as nat) as int
        &&& 0 <= w[self.wire_borrow_spec(i)] <= 1
    }

    /// The outputs and limbs of operation `i` are the ones this gate's
    /// generator writes.
    pub open spec fn op_generated(self, w: Seq<int>, i: int) -> bool {
        let raw = self.op_raw(w, i);
        &&& w[self.wire_result_spec(i)] == self.gen_result(raw)
        &&& w[self.wire_borrow_out_spec(i)] == self.gen_borrow(raw)
        &&& forall|j: int|
            0 <= j < self.num_limbs_spec() ==> w[self.wire_limb_spec(i, j)] == self.gen_limb(
                self.gen_result(raw), j)
    }

    /// One generator per packed operation.
    pub fn generators(&self, gate_index: usize, _local_constants: &Vec<Felt>) -> (r: Vec<
        BinarySubtractionGenerator,
    >)
        requires
            self.wf_spec(),
        ensures
            r@.len() == self.num_ops,
            forall|k: int|
                0 <= k < r@.len() ==> (#[trigger] r@[k]).gate == *self && r@[k].gate_index
                    == gate_index && r@[k].i == k,
    {
        let mut out: Vec<BinarySubtractionGenerator> = Vec::new();
        let mut k: usize = 0;
        while k < self.num_ops
            invariant
                k <= self.num_ops,
                out@.len() == k,
                forall|m: int|
                    0 <= m < out@.len() ==> (#[trigger] out@[m]).gate == *self && out@[m].gate_index
                        == gate_index && out@[m].i == m,
            decreases self.num_ops - k,
        {
            out.push(BinarySubtractionGenerator { gate: *self, gate_index, i: k });
            k += 1;
        }
        out
    }
}

/// The deferred computation for one operation of one gate instance: reads
/// `x`, `y` and the incoming borrow, writes the result, the outgoing borrow
/// and the limbs.
#[derive(Clone, Copy, Debug, PartialEq, Eq, Structural)]
pub struct BinarySubtractionGenerator {
    pub gate: BinarySubtractionGate,
    pub gate_index: usize,
    pub i: usize,
}

impl BinarySubtractionGenerator {
    /// The row-local wire at column `input` of this generator's row.
    pub open spec fn local_wire_spec(self, input: int) -> Wire {
        Wire { gate: self.gate_index, input: input as usize }
    }

    pub open spec fn wf_spec(self) -> bool {
        self.gate.wf_spec() && self.i < self.gate.num_ops
    }

    /// The generator may run once its three input wires are resolved.
    pub open spec fn deps_resolved(self, witness: PartitionWitness) -> bool {
        &&& witness.is_set(self.local_wire_spec(self.gate.wire_x_spec(self.i as int)))
        &&& witness.is_set(self.local_wire_spec(self.gate.wire_y_spec(self.i as int)))
        &&& witness.is_set(self.local_wire_spec(self.gate.wire_borrow_spec(self.i as int)))
    }

    /// The raw difference given a resolved witness.
    pub open spec fn raw_of(self, witness: PartitionWitness) -> int {
        self.gate.raw_diff(
            witness.wire_value(self.local_wire_spec(self.gate.wire_x_spec(self.i as int))),
            witness.wire_value(self.local_wire_spec(self.gate.wire_y_spec(self.i as int))),
            witness.wire_value(self.local_wire_spec(self.gate.wire_borrow_spec(self.i as int))),
        )
    }

    pub fn dependencies(&self) -> (r: Vec<Wire>)
        requires
            self.wf_spec(),
        ensures
            r@.len() == 3,
            r@[0] == self.local_wire_spec(self.gate.wire_x_spec(self.i as int)),
            r@[1] == self.local_wire_spec(self.gate.wire_y_spec(self.i as int)),
            r@[2] == self.local_wire_spec(self.gate.wire_borrow_spec(self.i as int)),
    {
        let mut r: Vec<Wire> = Vec::new();
        r.push(Wire { gate: self.gate_index, input: self.gate.wire_ith_input_x(self.i) });
        r.push(Wire { gate: self.gate_index, input: self.gate.wire_ith_input_y(self.i) });
        r.push(Wire { gate: self.gate_index, input: self.gate.wire_ith_input_borrow(self.i) });
        r
    }

    /// Computes the raw difference from the resolved inputs, infers underflow
    /// from its canonical representative, and writes the result, the outgoing
    /// borrow and the result's little-endian limbs into the buffer.
    pub fn run_once(&self, witness: &PartitionWitness, out_buffer: &mut GeneratedValues)
        requires
            self.wf_spec(),
            witness.wf(),
            self.deps_resolved(*witness),
            old(out_buffer).wf(),
        ensures
            final(out_buffer).wf(),
            ({
                let g = self.gate;
                let raw = self.raw_of(*witness);
                let res = g.gen_result(raw);
                let n0 = old(out_buffer).target_values@.len() as int;
                let tv = final(out_buffer).target_values@;
                &&& tv.len() == n0 + 2 + g.num_limbs_spec()
                &&& tv.subrange(0, n0) == old(out_buffer).target_values@
                &&& tv[n0].0 == self.local_wire_spec(g.wire_result_spec(self.i as int))
                &&& tv[n0].1@ == res
                &&& tv[n0 + 1].0 == self.local_wire_spec(g.wire_borrow_out_spec(self.i as int))
                &&& tv[n0 + 1].1@ == g.gen_borrow(raw)
                &&& forall|j: int|
                    0 <= j < g.num_limbs_spec() ==> (#[trigger] tv[n0 + 2 + j]).0
                        == self.local_wire_spec(g.wire_limb_spec(self.i as int, j)) && tv[n0 + 2
                        + j].1@ == g.gen_limb(res, j)
            }),
    {
        let input_x = witness.get_wire(
            Wire { gate: self.gate_index, input: self.gate.wire_ith_input_x(self.i) },
        );
        let input_y = witness.get_wire(
            Wire { gate: self.gate_index, input: self.gate.wire_ith_input_y(self.i) },
        );
        let input_borrow = witness.get_wire(
            Wire { gate: self.gate_index, input: self.gate.wire_ith_input_borrow(self.i) },
        );
        let result_initial = input_x.sub(input_y).sub(input_borrow);
        proof {
            crate::field::lemma_pow2_le_order(self.gate.bits as nat);
        }
        let base = crate::field::pow2_u64(self.gate.bits as u64);
        let output_borrow = if result_initial.v >= base {
            Felt::one()
        } else {
            Felt::zero()
        };
        proof {
            vstd::arithmetic::div_mod::lemma_small_mod(base as nat, FIELD_ORDER as nat);
            vstd::arithmetic::div_mod::lemma_small_mod(result_initial.v as nat, FIELD_ORDER as nat);
        }
        let output_result = result_initial.add(Felt { v: base }.mul(output_borrow));
        proof {
            let raw = self.raw_of(*witness);
            assert(raw == result_initial@);
            if result_initial.v >= base {
                assert((base as int) * 1 == base as int) by (nonlinear_arith);
                assert(fmul(base as int, 1) == base as int);
                assert(output_result@ == fadd(raw, pow2(self.gate.bits as nat) as int));
            } else {
                assert((base as int) * 0 == 0) by (nonlinear_arith);
                assert(fmul(base as int, 0) == 0);
                assert(output_result@ == fadd(raw, 0));
                assert(fadd(raw, 0) == raw);
            }
            assert(output_result@ == self.gate.gen_result(raw));
        }
        out_buffer.set_wire(
            Wire { gate: self.gate_index, input: self.gate.wire_ith_output_result(self.i) },
            output_result,
        );
        out_buffer.set_wire(
            Wire { gate: self.gate_index, input: self.gate.wire_ith_output_borrow(self.i) },
            output_borrow,
        );
        let num_limbs = self.gate.num_limbs();
        let mut cur: u64 = output_result.v;
        let mut j: usize = 0;
        proof {
            vstd::arithmetic::power2::lemma2_to64();
            vstd::arithmetic::div_mod::lemma_div_basics(output_result.v as int);
        }
        while j < num_limbs
            invariant
                self.wf_spec(),
                num_limbs == self.gate.num_limbs_spec(),
                j <= num_limbs,
                cur as int == self.gate.gen_result(self.raw_of(*witness)) / (pow2(
                    (2 * j) as nat) as int),
                out_buffer.wf(),
                ({
                    let g = self.gate;
                    let raw = self.raw_of(*witness);
                    let res = g.gen_result(raw);
                    let n0 = old(out_buffer).target_values@.len() as int;
                    let tv = out_buffer.target_values@;
                    &&& tv.len() == n0 + 2 + j
                    &&& tv.subrange(0, n0) == old(out_buffer).target_values@
                    &&& tv[n0].0 == self.local_wire_spec(g.wire_result_spec(self.i as int))
                    &&& tv[n0].1@ == res
                    &&& tv[n0 + 1].0 == self.local_wire_spec(g.wire_borrow_out_spec(self.i as int))
                    &&& tv[n0 + 1].1@ == g.gen_borrow(raw)
                    &&& forall|m: int|
                        0 <= m < j ==> (#[trigger] tv[n0 + 2 + m]).0 == self.local_wire_spec(
                            g.wire_limb_spec(self.i as int, m)) && tv[n0 + 2 + m].1@ == g.gen_limb(
                            res, m)
                }),
            decreases num_limbs - j,
        {
            let limb = cur % 4;
            out_buffer.set_wire(
                Wire {
                    gate: self.gate_index,
                    input: self.gate.wire_ith_output_jth_limb(self.i, j),
                },
                Felt { v: limb },
            );
            proof {
                let res = self.gate.gen_result(self.raw_of(*witness));
                vstd::arithmetic::power2::lemma_pow2_pos((2 * j) as nat);
                vstd::arithmetic::div_mod::lemma_div_denominator(res,
                    pow2((2 * j) as nat) as int, 4);
                vstd::arithmetic::power2::lemma_pow2_adds((2 * j) as nat, 2);
                vstd::arithmetic::power2::lemma2_to64();
            }
            cur = cur / 4;
            j += 1;
        }
    }
}

/// Law (subtraction semantics): for `bits`-bit inputs and a boolean incoming
/// borrow, the generated outputs satisfy `result ∈ [0, 2^bits)`,
/// `borrow_out ∈ {0, 1}`, and `result == x - y - borrow_in + borrow_out *
/// 2^bits` exactly as integers.
pub proof fn lemma_subtraction_semantics(g: BinarySubtractionGate, x: int, y: int, b: int)
    requires
        g.wf_spec(),
        0 <= x < pow2(g.bits as nat) as int,
        0 <= y < pow2(g.bits as nat) as int,
        0 <= b <= 1,
    ensures
        ({
            let raw = g.raw_diff(x, y, b);
            let bo = g.gen_borrow(raw);
            let res = g.gen_result(raw);
            &&& 0 <= res < pow2(g.bits as nat) as int
            &&& (bo == 0 || bo == 1)
            &&& res == x - y - b + bo * (pow2(g.bits as nat) as int)
        }),
{
    let p = FIELD_ORDER as int;
    let bb = pow2(g.bits as nat) as int;
    let t = x - y - b;
    lemma_two_b_below_order(g.bits as nat);
    // The raw difference is the canonical representative of `x - y - b`.
    vstd::arithmetic::div_mod::lemma_sub_mod_noop(x - y, b, p);
    vstd::arithmetic::div_mod::lemma_small_mod(b as nat, FIELD_ORDER as nat);
    assert(g.raw_diff(x, y, b) == t % p);
    if t >= 0 {
        vstd::arithmetic::div_mod::lemma_small_mod(t as nat, FIELD_ORDER as nat);
        assert(g.raw_diff(x, y, b) == t);
        assert(g.gen_borrow(t) == 0);
        assert(0 * bb == 0) by (nonlinear_arith);
    } else {
        vstd::arithmetic::div_mod::lemma_mod_add_multiples_vanish(t, p);
        vstd::arithmetic::div_mod::lemma_small_mod((t + p) as nat, FIELD_ORDER as nat);
        assert(g.raw_diff(x, y, b) == t + p);
        assert(t + p >= bb);
        assert(g.gen_borrow(t + p) == 1);
        assert(g.gen_result(t + p) == fadd(t + p, bb));
        vstd::arithmetic::div_mod::lemma_mod_add_multiples_vanish(t + bb, p);
        vstd::arithmetic::div_mod::lemma_small_mod((t + bb) as nat, FIELD_ORDER as nat);
        assert(g.gen_result(t + p) == t + bb);
        assert(1 * bb == bb) by (nonlinear_arith);
    }
}

/// Twice `2^bits` still fits under the field order for widths up to 32.
proof fn lemma_two_b_below_order(b: nat)
    requires
        b <= 32,
    ensures
        2 * pow2(b) < FIELD_ORDER,
        pow2(b) >= 4 || b < 2,
{
    vstd::arithmetic::power2::lemma2_to64();
    vstd::arithmetic::power2::lemma2_to64_rest();
    vstd::arithmetic::power2::lemma_pow2_adds(b, 1);
    if b + 1 < 33 {
        vstd::arithmetic::power2::lemma_pow2_strictly_increases((b + 1) as nat, 33);
    }
    if b >= 2 {
        if b > 2 {
            vstd::arithmetic::power2::lemma_pow2_strictly_increases(2, b);
        }
    }
}

/// Law (constraints vanish): on a row that satisfies `op_generated` — its
/// result, outgoing borrow and limbs agree with the witness rule — and whose
/// inputs fit `bits` bits with a boolean incoming borrow, every emitted
/// constraint evaluates to zero.
pub proof fn lemma_constraints_vanish_on_generated(g: BinarySubtractionGate, w: Seq<int>)
    requires
        g.wf_spec(),
        w.len() >= g.num_wires_spec(),
        forall|i: int| 0 <= i < g.num_ops ==> #[trigger] g.op_inputs_in_range(w, i),
        forall|i: int| 0 <= i < g.num_ops ==> #[trigger] g.op_generated(w, i),
    ensures
        forall|c: int|
            0 <= c < g.num_constraints_spec() ==> #[trigger] g.constraint_value(w, c) == 0,
{
    let b = g.block_size();
    let nl = g.num_limbs_spec();
    assert forall|c: int| 0 <= c < g.num_constraints_spec() implies #[trigger] g.constraint_value(
        w, c) == 0 by {
        vstd::arithmetic::div_mod::lemma_fundamental_div_mod(c, b);
        vstd::arithmetic::div_mod::lemma_mod_bound(c, b);
        vstd::arithmetic::div_mod::lemma_multiply_divide_lt(c, b, g.num_ops as int);
        let i = c / b;
        let o = c % b;
        assert(0 <= i < g.num_ops);
        assert(g.op_inputs_in_range(w, i));
        assert(g.op_generated(w, i));
        let raw = g.op_raw(w, i);
        let res = g.gen_result(raw);
        let bo = g.gen_borrow(raw);
        let bb = pow2(g.bits as nat) as int;
        vstd::arithmetic::power2::lemma_pow2_pos(g.bits as nat);
        crate::field::lemma_pow2_le_order(g.bits as nat);
        lemma_subtraction_semantics(g, w[g.wire_x_spec(i)], w[g.wire_y_spec(i)],
            w[g.wire_borrow_spec(i)]);
        vstd::arithmetic::div_mod::lemma_mod_bound(raw, FIELD_ORDER as int);
        if o == 0 {
            assert(0 <= raw < FIELD_ORDER as int);
            if bo == 0 {
                assert(fmul(bb, 0) == 0);
                assert(fadd(raw, 0) == raw) by {
                    vstd::arithmetic::div_mod::lemma_small_mod(raw as nat, FIELD_ORDER as nat);
                }
                assert(res == raw);
            } else {
                assert(fmul(bb, 1) == bb) by {
                    vstd::arithmetic::div_mod::lemma_small_mod(bb as nat, FIELD_ORDER as nat);
                }
                assert(res == fadd(raw, bb));
            }
            assert(g.main_constraint(w, i) == fsub(res, res));
        } else if o <= nl {
            let j = nl - o;
            assert(w[g.wire_limb_spec(i, j)] == g.gen_limb(res, j));
            vstd::arithmetic::power2::lemma_pow2_pos((2 * j) as nat);
            vstd::arithmetic::div_mod::lemma_mod_bound(res / (pow2((2 * j) as nat) as int), 4);
            vstd::arithmetic::div_mod::lemma_div_pos_is_pos(res, pow2((2 * j) as nat) as int);
            crate::binary_arithmetic::lemma_limb_product_zero(g.gen_limb(res, j), 4);
        } else if o == nl + 1 {
            let limbs = g.op_limbs(w, i);
            assert forall|j: int| 0 <= j < nl implies limbs[j] == (res / (pow2(
                (2 * j) as nat) as int)) % 4 by {
                assert(w[g.wire_limb_spec(i, j)] == g.gen_limb(res, j));
            }
            assert(2 * nl == g.bits as int);
            lemma_combine_digit_range(limbs, res, 0, nl);
            assert(pow2(0) == 1) by {
                vstd::arithmetic::power2::lemma2_to64();
            }
            vstd::arithmetic::div_mod::lemma_div_basics(res);
            assert(combine_limbs(limbs.subrange(0, nl)) == res % bb);
            assert(res % bb == res) by {
                vstd::arithmetic::div_mod::lemma_small_mod(res as nat, bb as nat);
            }
            assert(w[g.wire_result_spec(i)] == res);
        } else {
            assert(bo == 0 || bo == 1);
            if bo == 0 {
                assert(fmul(0, fsub(1, 0)) == 0);
            } else {
                assert(fsub(1, 1) == 0);
                assert(fmul(1, 0) == 0);
            }
            assert(w[g.wire_borrow_out_spec(i)] == bo);
        }
    }
}

/// Law (evaluator agreement): the direct and the soundness-amplified
/// evaluators state one algebraic identity — on a row of base-field values
/// embedded into the extension, every extension constraint is exactly the
/// embedding of the corresponding base constraint.
pub proof fn lemma_base_ext_constraints_agree(g: BinarySubtractionGate, w: Seq<int>, c: int)
    requires
        g.wf_spec(),
        w.len() >= g.num_wires_spec(),
        0 <= c < g.num_constraints_spec(),
    ensures
        g.ext_constraint_value(w.map_values(|v: int| ext_embed(v)), c) == ext_embed(
            g.constraint_value(w, c),
        ),
{
    let ew = w.map_values(|v: int| ext_embed(v));
    let b = g.block_size();
    let nl = g.num_limbs_spec();
    vstd::arithmetic::div_mod::lemma_fundamental_div_mod(c, b);
    vstd::arithmetic::div_mod::lemma_mod_bound(c, b);
    assert(b * (g.num_ops as int) == (g.num_ops as int) * b) by (nonlinear_arith);
    vstd::arithmetic::div_mod::lemma_multiply_divide_lt(c, b, g.num_ops as int);
    let i = c / b;
    let o = c % b;
    assert(0 <= i < g.num_ops);
    lemma_sub_wire_bounds(g, i, 0);
    let bb = pow2(g.bits as nat) as int;
    if o == 0 {
        let raw = fsub(fsub(w[g.wire_x_spec(i)], w[g.wire_y_spec(i)]), w[g.wire_borrow_spec(i)]);
        crate::extension::lemma_embed_sub(w[g.wire_x_spec(i)], w[g.wire_y_spec(i)]);
        crate::extension::lemma_embed_sub(fsub(w[g.wire_x_spec(i)], w[g.wire_y_spec(i)]),
            w[g.wire_borrow_spec(i)]);
        crate::extension::lemma_embed_mul(bb, w[g.wire_borrow_out_spec(i)]);
        crate::extension::lemma_embed_add(raw, fmul(bb, w[g.wire_borrow_out_spec(i)]));
        crate::extension::lemma_embed_sub(w[g.wire_result_spec(i)],
            fadd(raw, fmul(bb, w[g.wire_borrow_out_spec(i)])));
    } else if o <= nl {
        let j = nl - o;
        lemma_sub_wire_bounds(g, i, j);
        crate::binary_arithmetic::lemma_embed_limb_product(w[g.wire_limb_spec(i, j)], 4);
    } else if o == nl + 1 {
        assert forall|j: int| 0 <= j < nl implies g.ext_op_limbs(ew, i)[j] == ext_embed(
            g.op_limbs(w, i)[j]) by {
            lemma_sub_wire_bounds(g, i, j);
        }
        let limbs = g.op_limbs(w, i).subrange(0, nl);
        assert(g.ext_op_limbs(ew, i).subrange(0, nl) =~= limbs.map_values(|v: int| ext_embed(v)));
        crate::binary_arithmetic::lemma_embed_combine(limbs);
        crate::extension::lemma_embed_sub(combine_limbs(limbs), w[g.wire_result_spec(i)]);
    } else {
        let bo = w[g.wire_borrow_out_spec(i)];
        assert(ext_one() == ext_embed(1));
        crate::extension::lemma_embed_sub(1, bo);
        crate::extension::lemma_embed_mul(bo, fsub(1, bo));
    }
}

/// Re-derives, after the builder grew, that the wires, the constants and the
/// constraint targets emitted so far keep their values and degrees.
proof fn lemma_sub_reestablish(
    b2: CircuitBuilder,
    b1: CircuitBuilder,
    b0: CircuitBuilder,
    wires: Seq<ExtensionTarget>,
    w: Seq<Ext4>,
    constraints: Seq<ExtensionTarget>,
    g: BinarySubtractionGate,
    base_t: ExtensionTarget,
    base4_t: ExtensionTarget,
    one_t: ExtensionTarget,
)
    requires
        b2.extends(b1),
        b1.extends(b0),
        targets_hold(b1, wires, w, 1),
        b1.valid_target(base_t),
        b1.valid_target(base4_t),
        b1.valid_target(one_t),
        forall|c: int|
            0 <= c < constraints.len() ==> b1.valid_target(#[trigger] constraints[c])
                && b1.value_spec(constraints[c]) == g.ext_constraint_value(w, c)
                && b1.degree_spec(constraints[c]) <= 4,
    ensures
        b2.extends(b0),
        targets_hold(b2, wires, w, 1),
        b2.valid_target(base_t),
        b2.value_spec(base_t) == b1.value_spec(base_t),
        b2.degree_spec(base_t) == b1.degree_spec(base_t),
        b2.valid_target(base4_t),
        b2.value_spec(base4_t) == b1.value_spec(base4_t),
        b2.degree_spec(base4_t) == b1.degree_spec(base4_t),
        b2.valid_target(one_t),
        b2.value_spec(one_t) == b1.value_spec(one_t),
        b2.degree_spec(one_t) == b1.degree_spec(one_t),
        forall|c: int|
            0 <= c < constraints.len() ==> b2.valid_target(#[trigger] constraints[c])
                && b2.value_spec(constraints[c]) == g.ext_constraint_value(w, c)
                && b2.degree_spec(constraints[c]) <= 4,
{
    lemma_extends_trans(b2, b1, b0);
    lemma_targets_hold_extends(b2, b1, wires, w, 1);
    lemma_extends_target(b2, b1, base_t);
    lemma_extends_target(b2, b1, base4_t);
    lemma_extends_target(b2, b1, one_t);
    assert forall|c: int| 0 <= c < constraints.len() implies b2.valid_target(
        #[trigger] constraints[c]) && b2.value_spec(constraints[c]) == g.ext_constraint_value(w, c)
        && b2.degree_spec(constraints[c]) <= 4 by {
        lemma_extends_target(b2, b1, constraints[c]);
    }
}

/// As `lemma_sub_reestablish`, also keeping the recombination accumulator.
proof fn lemma_sub_reestablish_inner(
    b2: CircuitBuilder,
    b1: CircuitBuilder,
    b0: CircuitBuilder,
    wires: Seq<ExtensionTarget>,
    w: Seq<Ext4>,
    constraints: Seq<ExtensionTarget>,
    g: BinarySubtractionGate,
    base_t: ExtensionTarget,
    base4_t: ExtensionTarget,
    one_t: ExtensionTarget,
    acc: ExtensionTarget,
)
    requires
        b2.extends(b1),
        b1.extends(b0),
        targets_hold(b1, wires, w, 1),
        b1.valid_target(base_t),
        b1.valid_target(base4_t),
        b1.valid_target(one_t),
        b1.valid_target(acc),
        forall|c: int|
            0 <= c < constraints.len() ==> b1.valid_target(#[trigger] constraints[c])
                && b1.value_spec(constraints[c]) == g.ext_constraint_value(w, c)
                && b1.degree_spec(constraints[c]) <= 4,
    ensures
        b2.extends(b0),
        targets_hold(b2, wires, w, 1),
        b2.valid_target(base_t),
        b2.value_spec(base_t) == b1.value_spec(base_t),
        b2.degree_spec(base_t) == b1.degree_spec(base_t),
        b2.valid_target(base4_t),
        b2.value_spec(base4_t) == b1.value_spec(base4_t),
        b2.degree_spec(base4_t) == b1.degree_spec(base4_t),
        b2.valid_target(one_t),
        b2.value_spec(one_t) == b1.value_spec(one_t),
        b2.degree_spec(one_t) == b1.degree_spec(one_t),
        b2.valid_target(acc),
        b2.value_spec(acc) == b1.value_spec(acc),
        b2.degree_spec(acc) == b1.degree_spec(acc),
        forall|c: int|
            0 <= c < constraints.len() ==> b2.valid_target(#[trigger] constraints[c])
                && b2.value_spec(constraints[c]) == g.ext_constraint_value(w, c)
                && b2.degree_spec(constraints[c]) <= 4,
{
    lemma_sub_reestablish(b2, b1, b0, wires, w, constraints, g, base_t, base4_t, one_t);
    lemma_extends_target(b2, b1, acc);
}

/// Wire indices of operation `i` lie below `num_wires_spec`, which fits
/// `usize`.
proof fn lemma_sub_wire_bounds(g: BinarySubtractionGate, i: int, j: int)
    requires
        g.wf_spec(),
        0 <= i < g.num_ops,
        0 <= j < g.num_limbs_spec(),
    ensures
        0 <= 5 * i && 5 * i + 4 < g.num_wires_spec(),
        5 * g.num_ops <= g.wire_limb_spec(i, j) < g.num_wires_spec(),
        g.num_wires_spec() <= usize::MAX,
{
    let nl = g.num_limbs_spec();
    assert(5 * i + 4 < g.num_ops * (5 + nl) && 5 * g.num_ops <= 5 * g.num_ops + nl * i + j
        && 5 * g.num_ops + nl * i + j < g.num_ops * (5 + nl)) by (nonlinear_arith)
        requires
            0 <= i < g.num_ops,
            0 <= j < nl,
            1 <= nl,
    ;
}

} // verus!
