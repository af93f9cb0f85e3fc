use binary_gates::binary_arithmetic::{BinaryArithmeticGate, BinaryArithmeticGenerator};
use binary_gates::binary_subtraction::{BinarySubtractionGate, BinarySubtractionGenerator};
use binary_gates::builder::CircuitBuilder;
use binary_gates::circuit::{CircuitConfig, GeneratedValues, PartitionWitness, Wire};
use binary_gates::extension::ExtElem;
use binary_gates::field::Felt;
use rand::RngExt;

fn felt(v: u64) -> Felt {
    Felt::from_canonical_u64(v)
}

fn ext(v: u64) -> ExtElem {
    ExtElem::from_base(felt(v))
}

fn arithmetic_wires(
    gate: &BinaryArithmeticGate,
    multiplicands_0: &[u64],
    multiplicands_1: &[u64],
    addends: &[u64],
) -> Vec<Felt> {
    let bits = gate.bits;
    let num_limbs = gate.num_limbs();
    let limb_base = 1u64 << BinaryArithmeticGate::limb_bits();
    let mut v0 = Vec::new();
    let mut v1 = Vec::new();
    for c in 0..gate.num_ops {
        let m0 = multiplicands_0[c];
        let m1 = multiplicands_1[c];
        let a = addends[c];

        let mut output = m0 * m1 + a;
        let output_low = output & ((1 << bits) - 1);
        let output_high = output >> bits;

        let mut output_limbs = Vec::with_capacity(num_limbs);
        for _i in 0..num_limbs {
            output_limbs.push(output % limb_base);
            output /= limb_base;
        }

        v0.push(felt(m0));
        v0.push(felt(m1));
        v0.push(felt(a));
        v0.push(felt(output_low));
        v0.push(felt(output_high));
        for l in output_limbs {
            v1.push(felt(l));
        }
    }
    v0.extend(v1);
    v0
}

fn subtraction_wires(
    gate: &BinarySubtractionGate,
    inputs_x: &[u64],
    inputs_y: &[u64],
    borrows: &[u64],
) -> Vec<Felt> {
    let bits = gate.bits;
    let num_limbs = gate.num_limbs();
    let limb_base = 1u64 << BinarySubtractionGate::limb_bits();
    let mut v0 = Vec::new();
    let mut v1 = Vec::new();
    for c in 0..gate.num_ops {
        let input_x = felt(inputs_x[c]);
        let input_y = felt(inputs_y[c]);
        let input_borrow = felt(borrows[c]);

        let result_initial = input_x.sub(input_y).sub(input_borrow);
        let result_initial_u64 = result_initial.to_canonical_u64();
        let output_borrow = if result_initial_u64 >= 1u64 << bits {
            Felt::one()
        } else {
            Felt::zero()
        };
        let base = felt(1u64 << bits);
        let output_result = result_initial.add(base.mul(output_borrow));

        let mut cur = output_result.to_canonical_u64();
        let mut output_limbs = Vec::with_capacity(num_limbs);
        for _i in 0..num_limbs {
            output_limbs.push(cur % limb_base);
            cur /= limb_base;
        }

        v0.push(input_x);
        v0.push(input_y);
        v0.push(input_borrow);
        v0.push(output_result);
        v0.push(output_borrow);
        for l in output_limbs {
            v1.push(felt(l));
        }
    }
    v0.extend(v1);
    v0
}

#[test]
fn binary_arithmetic_low_degree() {
    let gate = BinaryArithmeticGate { num_ops: 3, bits: 30 };
    let mut builder = CircuitBuilder::new();
    let mut rng = rand::rng();
    let mut wires = Vec::new();
    for _ in 0..gate.num_wires() {
        let v: u64 = rng.random::<u64>() % binary_gates::field::FIELD_ORDER;
        wires.push(builder.add_extension_wire(ext(v)));
    }
    let constraints = gate.eval_unfiltered_recursively(&mut builder, &wires);
    assert_eq!(constraints.len(), gate.num_constraints());
    for t in constraints {
        assert!(builder.degree_of(t) <= gate.degree() as u64);
    }
}

#[test]
fn binary_arithmetic_eval_fns() {
    let gate = BinaryArithmeticGate { num_ops: 3, bits: 30 };
    let mut rng = rand::rng();
    let mut base_wires = Vec::new();
    for _ in 0..gate.num_wires() {
        base_wires.push(felt(rng.random::<u64>() % binary_gates::field::FIELD_ORDER));
    }
    let ext_wires: Vec<ExtElem> = base_wires.iter().map(|&f| ExtElem::from_base(f)).collect();
    let base_out = gate.eval_unfiltered_base(&base_wires);
    let ext_out = gate.eval_unfiltered(&ext_wires);
    assert_eq!(base_out.len(), ext_out.len());
    for k in 0..base_out.len() {
        assert_eq!(ext_out[k], ExtElem::from_base(base_out[k]));
    }
    let mut builder = CircuitBuilder::new();
    let targets: Vec<_> = ext_wires.iter().map(|&e| builder.add_extension_wire(e)).collect();
    let sym_out = gate.eval_unfiltered_recursively(&mut builder, &targets);
    for k in 0..ext_out.len() {
        assert_eq!(builder.value_of(sym_out[k]), ext_out[k]);
    }
}

#[test]
fn test_gate_constraint() {
    const NUM_ARITHMETIC_OPS: usize = 3;
    const BITS: usize = 24;
    let mut rng = rand::rng();
    let multiplicands_0: Vec<u64> =
        (0..NUM_ARITHMETIC_OPS).map(|_| (rng.random::<u32>() % (1 << BITS)) as u64).collect();
    let multiplicands_1: Vec<u64> =
        (0..NUM_ARITHMETIC_OPS).map(|_| (rng.random::<u32>() % (1 << BITS)) as u64).collect();
    let addends: Vec<u64> =
        (0..NUM_ARITHMETIC_OPS).map(|_| (rng.random::<u32>() % (1 << BITS)) as u64).collect();

    let gate = BinaryArithmeticGate { num_ops: NUM_ARITHMETIC_OPS, bits: BITS };
    let wires: Vec<ExtElem> =
        arithmetic_wires(&gate, &multiplicands_0, &multiplicands_1, &addends)
            .into_iter()
            .map(ExtElem::from_base)
            .collect();
    assert!(
        gate.eval_unfiltered(&wires).iter().all(|x| *x == ExtElem::zero()),
        "Gate constraints are not satisfied."
    );
}

#[test]
fn binary_subtraction_low_degree() {
    let gate = BinarySubtractionGate { num_ops: 3, bits: 30 };
    let mut builder = CircuitBuilder::new();
    let mut rng = rand::rng();
    let mut wires = Vec::new();
    for _ in 0..gate.num_wires() {
        let v: u64 = rng.random::<u64>() % binary_gates::field::FIELD_ORDER;
        wires.push(builder.add_extension_wire(ext(v)));
    }
    let constraints = gate.eval_unfiltered_recursively(&mut builder, &wires);
    assert_eq!(constraints.len(), gate.num_constraints());
    for t in constraints {
        assert!(builder.degree_of(t) <= gate.degree() as u64);
    }
}

#[test]
fn binary_subtraction_eval_fns() {
    let gate = BinarySubtractionGate { num_ops: 3, bits: 30 };
    let mut rng = rand::rng();
    let mut base_wires = Vec::new();
    for _ in 0..gate.num_wires() {
        base_wires.push(felt(rng.random::<u64>() % binary_gates::field::FIELD_ORDER));
    }
    let ext_wires: Vec<ExtElem> = base_wires.iter().map(|&f| ExtElem::from_base(f)).collect();
    let base_out = gate.eval_unfiltered_base(&base_wires);
    let ext_out = gate.eval_unfiltered(&ext_wires);
    assert_eq!(base_out.len(), ext_out.len());
    for k in 0..base_out.len() {
        assert_eq!(ext_out[k], ExtElem::from_base(base_out[k]));
    }
    let mut builder = CircuitBuilder::new();
    let targets: Vec<_> = ext_wires.iter().map(|&e| builder.add_extension_wire(e)).collect();
    let sym_out = gate.eval_unfiltered_recursively(&mut builder, &targets);
    for k in 0..ext_out.len() {
        assert_eq!(builder.value_of(sym_out[k]), ext_out[k]);
    }
}

#[test]
fn test_gate_constraint_many() {
    for _ in 0..20 {
        subtraction_gate_constraint_once();
    }
}

fn subtraction_gate_constraint_once() {
    const NUM_SUBTRACTION_OPS: usize = 3;
    const BITS: usize = 32;
    let mut rng = rand::rng();
    let inputs_x: Vec<u64> =
        (0..NUM_SUBTRACTION_OPS).map(|_| rng.random::<u64>() % (1u64 << BITS)).collect();
    let inputs_y: Vec<u64> =
        (0..NUM_SUBTRACTION_OPS).map(|_| rng.random::<u64>() % (1u64 << BITS)).collect();
    let borrows: Vec<u64> = (0..NUM_SUBTRACTION_OPS).map(|_| rng.random::<u64>() % 2).collect();

    let gate = BinarySubtractionGate { num_ops: NUM_SUBTRACTION_OPS, bits: BITS };
    let wires: Vec<ExtElem> = subtraction_wires(&gate, &inputs_x, &inputs_y, &borrows)
        .into_iter()
        .map(ExtElem::from_base)
        .collect();
    assert!(
        gate.eval_unfiltered(&wires).iter().all(|x| *x == ExtElem::zero()),
        "Gate constraints are not satisfied."
    );
}

/// Runs the arithmetic gate's generator for one operation and returns the
/// full wire row it implies.
fn run_arithmetic_generator(gate: &BinaryArithmeticGate, m0: u64, m1: u64, a: u64) -> Vec<Felt> {
    let gate_index = 0;
    let mut witness = PartitionWitness::new(1, gate.num_wires());
    witness.set_wire(Wire { gate: gate_index, input: gate.wire_ith_multiplicand_0(0) }, felt(m0));
    witness.set_wire(Wire { gate: gate_index, input: gate.wire_ith_multiplicand_1(0) }, felt(m1));
    witness.set_wire(Wire { gate: gate_index, input: gate.wire_ith_addend(0) }, felt(a));
    let generator = BinaryArithmeticGenerator { gate: *gate, gate_index, i: 0 };
    assert_eq!(generator.dependencies().len(), 3);
    let mut out = GeneratedValues::new();
    generator.run_once(&witness, &mut out);
    for (w, v) in out.target_values.iter() {
        witness.set_wire(*w, *v);
    }
    let mut row = Vec::new();
    for col in 0..gate.num_wires() {
        row.push(witness.get_wire(Wire { gate: gate_index, input: col }));
    }
    row
}

#[test]
fn arithmetic_generator_small_scenario() {
    // 5 * 7 + 2 = 37 fits the low half; the high half stays zero.
    let gate = BinaryArithmeticGate { num_ops: 1, bits: 24 };
    let row = run_arithmetic_generator(&gate, 5, 7, 2);
    assert_eq!(row[gate.wire_ith_output_low_half(0)], felt(37));
    assert_eq!(row[gate.wire_ith_output_high_half(0)], felt(0));
    let out = gate.eval_unfiltered_base(&row);
    assert_eq!(out.len(), gate.num_constraints());
    assert!(out.iter().all(|x| *x == Felt::zero()), "Gate constraints are not satisfied.");
}

#[test]
fn arithmetic_generator_boundary_values() {
    let gate = BinaryArithmeticGate { num_ops: 1, bits: 24 };
    // Zero everywhere.
    let row = run_arithmetic_generator(&gate, 0, 0, 0);
    assert_eq!(row[gate.wire_ith_output_low_half(0)], felt(0));
    assert!(gate.eval_unfiltered_base(&row).iter().all(|x| *x == Felt::zero()));
    // The largest value of the low half: 1 * (2^24 - 1) + 0.
    let top = (1u64 << 24) - 1;
    let row = run_arithmetic_generator(&gate, 1, top, 0);
    assert_eq!(row[gate.wire_ith_output_low_half(0)], felt(top));
    assert_eq!(row[gate.wire_ith_output_high_half(0)], felt(0));
    assert!(gate.eval_unfiltered_base(&row).iter().all(|x| *x == Felt::zero()));
    // The largest 48-bit output: (2^24 - 1)^2 + (2^24 - 1).
    let row = run_arithmetic_generator(&gate, top, top, top);
    assert_eq!(row[gate.wire_ith_output_low_half(0)], felt((top * top + top) & ((1 << 24) - 1)));
    assert_eq!(row[gate.wire_ith_output_high_half(0)], felt((top * top + top) >> 24));
    assert!(gate.eval_unfiltered_base(&row).iter().all(|x| *x == Felt::zero()));
}

/// Runs the subtraction gate's generator for one operation and returns the
/// full wire row it implies.
fn run_subtraction_generator(gate: &BinarySubtractionGate, x: u64, y: u64, b: u64) -> Vec<Felt> {
    let gate_index = 0;
    let mut witness = PartitionWitness::new(1, gate.num_wires());
    witness.set_wire(Wire { gate: gate_index, input: gate.wire_ith_input_x(0) }, felt(x));
    witness.set_wire(Wire { gate: gate_index, input: gate.wire_ith_input_y(0) }, felt(y));
    witness.set_wire(Wire { gate: gate_index, input: gate.wire_ith_input_borrow(0) }, felt(b));
    let generator = BinarySubtractionGenerator { gate: *gate, gate_index, i: 0 };
    assert_eq!(generator.dependencies().len(), 3);
    let mut out = GeneratedValues::new();
    generator.run_once(&witness, &mut out);
    for (w, v) in out.target_values.iter() {
        witness.set_wire(*w, *v);
    }
    let mut row = Vec::new();
    for col in 0..gate.num_wires() {
        row.push(witness.get_wire(Wire { gate: gate_index, input: col }));
    }
    row
}

#[test]
fn subtraction_generator_underflow_scenario() {
    // 10 - 15 - 0 underflows: borrow_out = 1, result = 10 - 15 + 2^32.
    let gate = BinarySubtractionGate { num_ops: 1, bits: 32 };
    let row = run_subtraction_generator(&gate, 10, 15, 0);
    assert_eq!(row[gate.wire_ith_output_borrow(0)], felt(1));
    assert_eq!(row[gate.wire_ith_output_result(0)], felt(4294967291));
    let out = gate.eval_unfiltered_base(&row);
    assert_eq!(out.len(), gate.num_constraints());
    assert!(out.iter().all(|x| *x == Felt::zero()), "Gate constraints are not satisfied.");
}

#[test]
fn subtraction_generator_plain_difference() {
    let gate = BinarySubtractionGate { num_ops: 1, bits: 16 };
    let row = run_subtraction_generator(&gate, 1000, 999, 1);
    assert_eq!(row[gate.wire_ith_output_borrow(0)], felt(0));
    assert_eq!(row[gate.wire_ith_output_result(0)], felt(0));
    assert!(gate.eval_unfiltered_base(&row).iter().all(|x| *x == Felt::zero()));
    let row = run_subtraction_generator(&gate, 65535, 0, 0);
    assert_eq!(row[gate.wire_ith_output_result(0)], felt(65535));
    assert_eq!(row[gate.wire_ith_output_borrow(0)], felt(0));
    assert!(gate.eval_unfiltered_base(&row).iter().all(|x| *x == Felt::zero()));
}

#[test]
fn gate_sizes_from_config() {
    let config = CircuitConfig { num_wires: 135, num_routed_wires: 80 };
    let arith = BinaryArithmeticGate::new_from_config(&config, 16);
    // 5 + 16 limbs per op against 135 wires gives 6; 80 / 5 routed gives 16.
    assert_eq!(arith.num_ops, 6);
    assert_eq!(arith.num_limbs(), 16);
    assert_eq!(arith.num_wires(), 6 * 21);
    assert_eq!(arith.num_constraints(), 6 * 19);
    assert_eq!(arith.num_constants(), 0);
    assert_eq!(arith.degree(), 4);
    assert_eq!(BinaryArithmeticGate::limb_bits(), 2);

    let sub = BinarySubtractionGate::new_from_config(&config, 32);
    // 5 + 16 limbs per op: same budget arithmetic.
    assert_eq!(sub.num_ops, 6);
    assert_eq!(sub.num_limbs(), 16);
    assert_eq!(sub.num_wires(), 6 * 21);
    assert_eq!(sub.num_constraints(), 6 * 19);
    assert_eq!(sub.degree(), 4);
    assert_eq!(BinarySubtractionGate::limb_bits(), 2);
}

#[test]
fn generators_one_per_op() {
    let gate = BinaryArithmeticGate { num_ops: 4, bits: 8 };
    let gens = gate.generators(7, &Vec::new());
    assert_eq!(gens.len(), 4);
    assert_eq!(gens[2].i, 2);
    assert_eq!(gens[2].gate_index, 7);
    let gate = BinarySubtractionGate { num_ops: 2, bits: 8 };
    let gens = gate.generators(3, &Vec::new());
    assert_eq!(gens.len(), 2);
    assert_eq!(gens[1].dependencies()[0], Wire { gate: 3, input: 5 });
}

#[test]
fn arithmetic_constraints_vanish_all_widths() {
    let mut rng = rand::rng();
    for &bits in &[8usize, 16, 24, 30, 32] {
        let gate = BinaryArithmeticGate { num_ops: 1, bits };
        for _ in 0..8 {
            let m0 = rng.random::<u64>() % (1u64 << bits);
            let m1 = rng.random::<u64>() % (1u64 << bits);
            let a = rng.random::<u64>() % (1u64 << bits);
            let row = run_arithmetic_generator(&gate, m0, m1, a);
            // The halves recombine to the product exactly as integers.
            let low = row[gate.wire_ith_output_low_half(0)].to_canonical_u64() as u128;
            let high = row[gate.wire_ith_output_high_half(0)].to_canonical_u64() as u128;
            assert_eq!(low + (1u128 << bits) * high, m0 as u128 * m1 as u128 + a as u128);
            assert!(gate.eval_unfiltered_base(&row).iter().all(|x| *x == Felt::zero()));
        }
    }
}

#[test]
fn subtraction_semantics_random() {
    let mut rng = rand::rng();
    for &bits in &[8usize, 16, 24, 30, 32] {
        let gate = BinarySubtractionGate { num_ops: 1, bits };
        for _ in 0..8 {
            let x = rng.random::<u64>() % (1u64 << bits);
            let y = rng.random::<u64>() % (1u64 << bits);
            let b = rng.random::<u64>() % 2;
            let row = run_subtraction_generator(&gate, x, y, b);
            let result = row[gate.wire_ith_output_result(0)].to_canonical_u64();
            let borrow = row[gate.wire_ith_output_borrow(0)].to_canonical_u64();
            assert!(result < (1u64 << bits));
            assert!(borrow == 0 || borrow == 1);
            assert_eq!(
                result as i128,
                x as i128 - y as i128 - b as i128 + borrow as i128 * (1i128 << bits)
            );
            assert!(gate.eval_unfiltered_base(&row).iter().all(|x| *x == Felt::zero()));
        }
    }
}
