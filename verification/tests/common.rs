use binary_gates::builder::CircuitBuilder;
use binary_gates::extension::ExtElem;
use binary_gates::field::{Felt, FIELD_ORDER, TWO_ADICITY, TWO_ADIC_GENERATOR};
use binary_gates::plonk_common::{
    eval_l_1, eval_l_1_recursively, eval_zero_poly, reduce_with_powers, reduce_with_powers_multi,
    salt_size, PlonkOracle, ZeroPolyOnCoset,
};

fn felt(v: u64) -> Felt {
    Felt::from_canonical_u64(v)
}

/// A root of unity of order `2^n_log`.
fn root_of_unity(n_log: usize) -> Felt {
    felt(TWO_ADIC_GENERATOR).exp_power_of_2(TWO_ADICITY - n_log)
}

#[test]
fn field_ops_small_values() {
    assert_eq!(felt(3).add(felt(4)), felt(7));
    assert_eq!(felt(3).sub(felt(4)), felt(FIELD_ORDER - 1));
    assert_eq!(felt(6).mul(felt(7)), felt(42));
    assert_eq!(felt(7).exp_u64(3), felt(343));
    assert_eq!(felt(2).exp_power_of_2(4), felt(65536));
    assert_eq!(felt(0).try_inverse(), None);
    let inv5 = felt(5).try_inverse().unwrap();
    assert_eq!(inv5.mul(felt(5)), Felt::one());
    // The result is exactly the confirmed Fermat candidate.
    assert_eq!(inv5, felt(5).exp_u64(FIELD_ORDER - 2));
}

#[test]
fn batch_inverse_inverts_every_entry() {
    let xs = vec![felt(2), felt(3), felt(12345678901234567), felt(FIELD_ORDER - 1)];
    let invs = Felt::batch_multiplicative_inverse(&xs).unwrap();
    assert_eq!(invs.len(), xs.len());
    for k in 0..xs.len() {
        assert_eq!(xs[k].mul(invs[k]), Felt::one());
    }
    let with_zero = vec![felt(2), felt(0)];
    assert!(Felt::batch_multiplicative_inverse(&with_zero).is_none());
}

#[test]
fn two_adic_generator_has_the_claimed_order() {
    // The generator's 2^32-th power is one, and its 2^31-th power is not.
    assert_eq!(felt(TWO_ADIC_GENERATOR).exp_power_of_2(32), Felt::one());
    assert_ne!(felt(TWO_ADIC_GENERATOR).exp_power_of_2(31), Felt::one());
}

#[test]
fn extension_mul_and_inverse() {
    // Base embeddings multiply like base elements.
    let a = ExtElem::from_base(felt(6));
    let b = ExtElem::from_base(felt(7));
    assert_eq!(a.mul(b), ExtElem::from_base(felt(42)));
    // A genuinely non-scalar element still has a two-sided inverse.
    let c = ExtElem { c0: felt(1), c1: felt(2), c2: felt(3), c3: felt(4) };
    let cinv = c.try_inverse().unwrap();
    assert_eq!(c.mul(cinv), ExtElem::one());
    assert_eq!(ExtElem::zero().try_inverse(), None);
}

#[test]
fn zero_poly_values_match_direct_evaluation() {
    // n = 2^3 = 8, blow-up rate = 2^2 = 4.
    let n_log = 3;
    let rate_bits = 2;
    let zpc = ZeroPolyOnCoset::new(n_log, rate_bits);
    let n = 1u64 << n_log;
    let g = felt(binary_gates::field::COSET_SHIFT);
    let w = root_of_unity(n_log + rate_bits);
    for i in 0..12usize {
        // Z_H(g * w^i) = (g * w^i)^n - 1, computed directly.
        let point = g.mul(w.exp_u64(i as u64));
        let direct = eval_zero_poly(n as usize, point);
        assert_eq!(zpc.eval(i), direct);
        // The precomputed inverse really inverts.
        assert_eq!(zpc.eval(i).mul(zpc.eval_inverse(i)), Felt::one());
    }
}

#[test]
fn zero_poly_l1_matches_quotient() {
    let zpc = ZeroPolyOnCoset::new(3, 2);
    let n = felt(8);
    let x = felt(12345);
    let l1 = zpc.eval_l1(5, x);
    let divisor = n.mul(x.sub(Felt::one()));
    assert_eq!(l1.mul(divisor), zpc.eval(5));
}

#[test]
fn lagrange_basis_on_subgroup() {
    // L_1 is 1 at x = 1 and 0 at every other n-th root of unity.
    for n_log in 1..=3usize {
        let n = 1usize << n_log;
        let w = root_of_unity(n_log);
        assert_eq!(eval_l_1(n, Felt::one()), Felt::one());
        let mut x = w;
        for _k in 1..n {
            assert_eq!(eval_l_1(n, x), Felt::zero());
            x = x.mul(w);
        }
        // At the end the walk is back at 1.
        assert_eq!(x, Felt::one());
    }
}

#[test]
fn lagrange_basis_off_subgroup() {
    // Away from the subgroup, r * (n * (x - 1)) == x^n - 1.
    let n = 8usize;
    let x = felt(12345);
    let r = eval_l_1(n, x);
    let divisor = felt(n as u64).mul(x.sub(Felt::one()));
    assert_eq!(r.mul(divisor), eval_zero_poly(n, x));
}

#[test]
fn reduce_with_powers_exact_values() {
    let terms = vec![felt(1), felt(2), felt(3)];
    // 1 + 10 * (2 + 10 * 3) = 321.
    assert_eq!(reduce_with_powers(&terms, felt(10)), felt(321));
    let empty: Vec<Felt> = Vec::new();
    assert_eq!(reduce_with_powers(&empty, felt(10)), Felt::zero());
    let multi = reduce_with_powers_multi(&terms, &vec![felt(10), felt(100)]);
    assert_eq!(multi.len(), 2);
    assert_eq!(multi[0], felt(321));
    assert_eq!(multi[1], felt(30201));
}

#[test]
fn reduce_with_powers_ext_recursive_matches_scalar() {
    let mut builder = CircuitBuilder::new();
    let terms = vec![
        builder.add_extension_wire(ExtElem::from_base(felt(1))),
        builder.add_extension_wire(ExtElem::from_base(felt(2))),
        builder.add_extension_wire(ExtElem::from_base(felt(3))),
    ];
    let alpha = builder.add_extension_wire(ExtElem::from_base(felt(10)));
    let r = binary_gates::plonk_common::reduce_with_powers_ext_recursive(
        &mut builder,
        &terms,
        alpha,
    );
    assert_eq!(builder.value_of(r), ExtElem::from_base(felt(321)));
}

#[test]
fn lagrange_basis_recursive_matches_quotient() {
    let n_log = 3usize;
    let n = 1usize << n_log;
    let w = root_of_unity(n_log);
    // x = w is an n-th root of unity other than 1, so L_1(x) = 0.
    let mut builder = CircuitBuilder::new();
    let x = builder.add_extension_wire(ExtElem::from_base(w));
    let x_pow_n = builder.add_extension_wire(ExtElem::from_base(w.exp_u64(n as u64)));
    let r = eval_l_1_recursively(&mut builder, n, x, x_pow_n);
    assert_eq!(builder.value_of(r), ExtElem::zero());
    // At a point off the subgroup the quotient identity holds.
    let y = felt(12345);
    let mut builder = CircuitBuilder::new();
    let x = builder.add_extension_wire(ExtElem::from_base(y));
    let x_pow_n = builder.add_extension_wire(ExtElem::from_base(y.exp_u64(n as u64)));
    let r = eval_l_1_recursively(&mut builder, n, x, x_pow_n);
    let divisor = ExtElem::from_base(felt(n as u64).mul(y.sub(Felt::one())));
    let expected = ExtElem::from_base(y.exp_u64(n as u64).sub(Felt::one()));
    assert_eq!(builder.value_of(r).mul(divisor), expected);
}

#[test]
fn builder_division_recovers_the_quotient() {
    let mut builder = CircuitBuilder::new();
    let a = ExtElem { c0: felt(1), c1: felt(2), c2: felt(3), c3: felt(4) };
    let b = ExtElem { c0: felt(5), c1: felt(6), c2: felt(7), c3: felt(8) };
    let prod = builder.add_extension_wire(a.mul(b));
    let bt = builder.add_extension_wire(b);
    let q = builder.div_extension(prod, bt);
    assert_eq!(builder.value_of(q), a);
    // Wires are degree 1; a quotient records the summed degree bound.
    assert_eq!(builder.degree_of(q), 2);
}

#[test]
fn oracles_and_salt() {
    assert_eq!(salt_size(true), 4);
    assert_eq!(salt_size(false), 0);
    assert!(!PlonkOracle::constants_sigmas().as_fri_oracle().blinding);
    assert!(PlonkOracle::wires().as_fri_oracle().blinding);
    assert!(PlonkOracle::zs_partial_products().as_fri_oracle().blinding);
    assert!(PlonkOracle::quotient().as_fri_oracle().blinding);
    assert_eq!(PlonkOracle::constants_sigmas().index, 0);
    assert_eq!(PlonkOracle::wires().index, 1);
    assert_eq!(PlonkOracle::zs_partial_products().index, 2);
    assert_eq!(PlonkOracle::quotient().index, 3);
}
