use ark_ed_on_bls12_381::EdwardsParameters;
use ark_std::rand::rngs::StdRng;
use ark_std::rand::SeedableRng;
use plonk_circuit::arithmetic_gate::ArithmeticGate;
use plonk_circuit::circuit_builder::CircuitBuilder;
use plonk_circuit::error::Error;
use plonk_circuit::field::Scalar;
use plonk_circuit::variable::{Variable, WireData};

type Builder = CircuitBuilder<EdwardsParameters>;

fn s(x: u64) -> Scalar {
    Scalar::from_u64(x)
}

fn minus(x: u64) -> Scalar {
    Scalar::from_u64(x).neg()
}

fn value(builder: &Builder, v: Variable) -> Scalar {
    builder.variables[v.0]
}

/// The left-hand side of the equation of gate `i`.
fn gate_value(builder: &Builder, i: usize) -> Scalar {
    let a = value(builder, builder.w_l[i]);
    let b = value(builder, builder.w_r[i]);
    let c = value(builder, builder.w_o[i]);
    let d = value(builder, builder.w_4[i]);
    let pi = builder.public_inputs.get(i).unwrap_or(Scalar::zero());
    builder.q_m[i]
        .mul(&a.mul(&b))
        .add(&builder.q_l[i].mul(&a))
        .add(&builder.q_r[i].mul(&b))
        .add(&builder.q_4[i].mul(&d))
        .add(&builder.q_o[i].mul(&c))
        .add(&builder.q_c[i])
        .add(&pi)
}

fn assert_lengths(builder: &Builder) {
    let n = builder.n;
    assert_eq!(builder.q_m.len(), n);
    assert_eq!(builder.q_l.len(), n);
    assert_eq!(builder.q_r.len(), n);
    assert_eq!(builder.q_o.len(), n);
    assert_eq!(builder.q_4.len(), n);
    assert_eq!(builder.q_c.len(), n);
    assert_eq!(builder.q_lookup.len(), n);
    assert_eq!(builder.w_l.len(), n);
    assert_eq!(builder.w_r.len(), n);
    assert_eq!(builder.w_o.len(), n);
    assert_eq!(builder.w_4.len(), n);
    let positions: usize = builder.perm.variable_map.iter().map(|p| p.len()).sum();
    assert_eq!(positions, 4 * n);
    assert_eq!(builder.perm.variable_map.len(), builder.variables.len());
}

#[test]
fn new_builder_has_only_the_zero_variable() {
    let builder = Builder::new(16);
    assert_eq!(builder.n, 0);
    assert_eq!(builder.zero_var(), Variable(0));
    assert_eq!(builder.variables, vec![Scalar::zero()]);
    assert_eq!(builder.lookup_table.size(), 0);
    assert!(builder.intended_pi_pos.is_empty());
    assert!(builder.public_inputs.positions.is_empty());
    assert_lengths(&builder);
}

#[test]
fn add_input_binds_the_next_variable() {
    let mut builder = Builder::new(0);
    let a = builder.add_input(s(11));
    let b = builder.add_input(s(11));
    assert_eq!(a, Variable(1));
    assert_eq!(b, Variable(2));
    assert_eq!(value(&builder, a), s(11));
    assert_eq!(value(&builder, b), s(11));
    assert_eq!(builder.n, 0);
    assert_lengths(&builder);
}

#[test]
fn constant_constraint() {
    let mut builder = Builder::new(4);
    let v = builder.add_input(s(5));
    builder.constrain_to_constant(v, s(5), None);
    assert_eq!(builder.n, 1);
    assert_eq!(builder.q_l[0], Scalar::one());
    assert_eq!(builder.q_c[0], minus(5));
    assert_eq!(builder.q_m[0], Scalar::zero());
    assert_eq!(builder.q_r[0], Scalar::zero());
    assert_eq!(builder.q_o[0], Scalar::zero());
    assert_eq!(builder.q_4[0], Scalar::zero());
    assert_eq!(builder.q_lookup[0], Scalar::zero());
    assert_eq!(builder.w_l[0], v);
    assert_eq!(builder.w_r[0], v);
    assert_eq!(builder.w_o[0], v);
    assert_eq!(builder.w_4[0], builder.zero_var());
    assert_eq!(gate_value(&builder, 0), Scalar::zero());
    assert_lengths(&builder);
}

#[test]
fn constant_constraint_on_another_value_is_not_satisfied() {
    let mut builder = Builder::new(4);
    let v = builder.add_input(s(6));
    builder.constrain_to_constant(v, s(5), None);
    assert_eq!(gate_value(&builder, 0), Scalar::one());
}

#[test]
fn constant_constraint_with_public_input() {
    let mut builder = Builder::new(4);
    let v = builder.add_input(s(3));
    builder.constrain_to_constant(v, s(5), Some(s(2)));
    assert_eq!(builder.public_inputs.get(0), Some(s(2)));
    assert_eq!(builder.intended_pi_pos, vec![0]);
    assert_eq!(gate_value(&builder, 0), Scalar::zero());
}

#[test]
fn equality() {
    let mut builder = Builder::new(4);
    let a = builder.add_input(s(7));
    let b = builder.add_input(s(7));
    builder.assert_equal(a, b);
    assert_eq!(builder.n, 1);
    assert_eq!(builder.q_l[0], Scalar::one());
    assert_eq!(builder.q_r[0], minus(1));
    assert_eq!(builder.q_m[0], Scalar::zero());
    assert_eq!(builder.q_o[0], Scalar::zero());
    assert_eq!(builder.q_c[0], Scalar::zero());
    assert_eq!(gate_value(&builder, 0), Scalar::zero());
    assert_eq!(builder.perm.variable_map[a.0], vec![WireData::Left(0)]);
    assert_eq!(builder.perm.variable_map[b.0], vec![WireData::Right(0)]);
    assert_eq!(
        builder.perm.variable_map[builder.zero_var().0],
        vec![WireData::Output(0), WireData::Fourth(0)]
    );
}

#[test]
fn equality_of_different_values_is_not_satisfied() {
    let mut builder = Builder::new(4);
    let a = builder.add_input(s(7));
    let b = builder.add_input(s(8));
    builder.assert_equal(a, b);
    assert_eq!(gate_value(&builder, 0), minus(1));
}

#[test]
fn zero_test_on_nonzero_input() {
    let mut builder = Builder::new(4);
    let a = builder.add_input(s(3));
    let out = builder.is_zero_with_output(a);
    assert_eq!(value(&builder, out), Scalar::zero());
    assert_eq!(builder.n, 2);
    let y = Variable(out.0 - 1);
    assert_eq!(value(&builder, y), s(3).inverse().unwrap());
    assert_eq!(value(&builder, y).mul(&s(3)), Scalar::one());
    assert_eq!(gate_value(&builder, 0), Scalar::zero());
    assert_eq!(gate_value(&builder, 1), Scalar::zero());
    assert_lengths(&builder);
}

#[test]
fn zero_test_on_zero_input() {
    let mut builder = Builder::new(4);
    let a = builder.add_input(s(0));
    let out = builder.is_zero_with_output(a);
    assert_eq!(value(&builder, out), Scalar::one());
    assert_eq!(builder.n, 2);
    let y = Variable(out.0 - 1);
    assert_eq!(value(&builder, y), Scalar::one());
    assert_eq!(gate_value(&builder, 0), Scalar::zero());
    assert_eq!(gate_value(&builder, 1), Scalar::zero());
}

#[test]
fn zero_test_gates_have_the_expected_rows() {
    let mut builder = Builder::new(4);
    let a = builder.add_input(s(3));
    let out = builder.is_zero_with_output(a);
    let y = Variable(out.0 - 1);
    let zero = builder.zero_var();
    assert_eq!(
        (builder.w_l[0], builder.w_r[0], builder.w_o[0], builder.w_4[0]),
        (a, out, zero, zero)
    );
    assert_eq!(
        (builder.w_l[1], builder.w_r[1], builder.w_o[1], builder.w_4[1]),
        (a, y, zero, out)
    );
    assert_eq!(builder.q_m, vec![s(1), s(1)]);
    assert_eq!(builder.q_o, vec![minus(1), minus(1)]);
    assert_eq!(builder.q_4, vec![s(0), s(1)]);
    assert_eq!(builder.q_c, vec![s(0), minus(1)]);
    assert_eq!(builder.q_l, vec![s(0), s(0)]);
    assert_eq!(builder.q_r, vec![s(0), s(0)]);
}

#[test]
fn equality_test_with_output() {
    let mut builder = Builder::new(4);
    let a = builder.add_input(s(9));
    let b = builder.add_input(s(9));
    let c = builder.add_input(s(4));
    let same = builder.is_eq_with_output(a, b);
    let different = builder.is_eq_with_output(a, c);
    assert_eq!(value(&builder, same), Scalar::one());
    assert_eq!(value(&builder, different), Scalar::zero());
    assert_eq!(builder.n, 6);
    assert_eq!(value(&builder, builder.w_o[3]), s(5));
    for i in 0..builder.n {
        assert_eq!(gate_value(&builder, i), Scalar::zero());
    }
    assert_lengths(&builder);
}

#[test]
fn conditional_select_takes_the_first_choice_for_one() {
    let mut builder = Builder::new(4);
    let bit = builder.add_input(s(1));
    let a = builder.add_input(s(40));
    let b = builder.add_input(s(50));
    let out = builder.conditional_select(bit, a, b);
    assert_eq!(value(&builder, out), s(40));
    assert_eq!(builder.n, 4);
    for i in 0..4 {
        assert_eq!(gate_value(&builder, i), Scalar::zero());
    }
    assert_lengths(&builder);
}

#[test]
fn conditional_select_takes_the_second_choice_for_zero() {
    let mut builder = Builder::new(4);
    let bit = builder.add_input(s(0));
    let a = builder.add_input(s(40));
    let b = builder.add_input(s(50));
    let out = builder.conditional_select(bit, a, b);
    assert_eq!(value(&builder, out), s(50));
    for i in 0..4 {
        assert_eq!(gate_value(&builder, i), Scalar::zero());
    }
}

#[test]
fn conditional_select_is_linear_in_the_bit() {
    let mut builder = Builder::new(4);
    let bit = builder.add_input(s(3));
    let a = builder.add_input(s(10));
    let b = builder.add_input(s(4));
    let out = builder.conditional_select(bit, a, b);
    // 3 * 10 + (1 - 3) * 4 = 22
    assert_eq!(value(&builder, out), s(22));
    assert_eq!(value(&builder, Variable(out.0 - 3)), s(30));
    assert_eq!(value(&builder, Variable(out.0 - 2)), minus(2));
    assert_eq!(value(&builder, Variable(out.0 - 1)), minus(8));
}

#[test]
fn poly_gate_appends_the_given_row() {
    let mut builder = Builder::new(4);
    let a = builder.add_input(s(2));
    let b = builder.add_input(s(3));
    let c = builder.add_input(s(6));
    let wires = builder.poly_gate(a, b, c, s(1), s(0), s(0), minus(1), s(0), None);
    assert_eq!(wires, (a, b, c));
    assert_eq!(builder.n, 1);
    assert_eq!(builder.q_lookup[0], Scalar::zero());
    assert_eq!(builder.q_4[0], Scalar::zero());
    assert_eq!(builder.w_4[0], builder.zero_var());
    assert_eq!(gate_value(&builder, 0), Scalar::zero());
    assert!(builder.intended_pi_pos.is_empty());
    assert_eq!(builder.perm.variable_map[c.0], vec![WireData::Output(0)]);
}

#[test]
fn poly_gate_registers_its_public_input() {
    let mut builder = Builder::new(4);
    let a = builder.add_input(s(2));
    builder.poly_gate(a, a, a, s(0), s(1), s(0), s(0), s(0), None);
    builder.poly_gate(a, a, a, s(0), s(1), s(0), s(0), s(0), Some(minus(2)));
    assert_eq!(builder.intended_pi_pos, vec![1]);
    assert_eq!(builder.public_inputs.get(0), None);
    assert_eq!(builder.public_inputs.get(1), Some(minus(2)));
    assert_eq!(gate_value(&builder, 0), s(2));
    assert_eq!(gate_value(&builder, 1), Scalar::zero());
}

#[test]
fn add_pi_binds_consecutive_positions() {
    let mut builder = Builder::new(4);
    let a = builder.add_input(s(2));
    for _ in 0..3 {
        builder.poly_gate(a, a, a, s(0), s(0), s(0), s(0), s(0), None);
    }
    assert_eq!(builder.add_pi(1, &vec![s(8), s(9)]), Ok(()));
    assert_eq!(builder.intended_pi_pos, vec![1, 2]);
    assert_eq!(builder.public_inputs.get(1), Some(s(8)));
    assert_eq!(builder.public_inputs.get(2), Some(s(9)));
    assert_eq!(builder.public_inputs.get(0), None);
    assert_eq!(gate_value(&builder, 2), s(9));
}

#[test]
fn add_pi_fails_on_a_taken_position_and_changes_nothing() {
    let mut builder = Builder::new(4);
    let a = builder.add_input(s(2));
    for _ in 0..3 {
        builder.poly_gate(a, a, a, s(0), s(0), s(0), s(0), s(0), None);
    }
    assert_eq!(builder.add_pi(1, &vec![s(8)]), Ok(()));
    assert_eq!(builder.add_pi(0, &vec![s(5), s(6)]), Err(Error::PositionAlreadyTaken));
    assert_eq!(builder.intended_pi_pos, vec![1]);
    assert_eq!(builder.public_inputs.get(0), None);
    assert_eq!(builder.public_inputs.get(1), Some(s(8)));
    assert_eq!(builder.add_pi(0, &vec![]), Ok(()));
    assert_eq!(builder.intended_pi_pos, vec![1]);
}

#[test]
fn arithmetic_gate_with_given_output() {
    let mut builder = Builder::new(4);
    let a = builder.add_input(s(2));
    let b = builder.add_input(s(3));
    let c = builder.add_input(s(5));
    let mut gate = ArithmeticGate::new();
    gate.witness(a, b, Some(c)).add(s(1), s(1));
    let out = builder.arithmetic_gate(gate);
    assert_eq!(out, c);
    assert_eq!(builder.variables.len(), 4);
    assert_eq!(gate_value(&builder, 0), Scalar::zero());
}

#[test]
fn arithmetic_gate_infers_the_output() {
    let mut builder = Builder::new(4);
    let a = builder.add_input(s(2));
    let b = builder.add_input(s(3));
    let d = builder.add_input(s(10));
    let mut gate = ArithmeticGate::new();
    gate.witness(a, b, None)
        .mul(s(4))
        .add(s(5), s(6))
        .fan_in_3(s(7), d)
        .constant(s(8))
        .pi(s(9));
    let out = builder.arithmetic_gate(gate);
    assert_eq!(out, Variable(4));
    // 4 * 6 + 5 * 2 + 6 * 3 + 7 * 10 + 8 + 9 = 139
    assert_eq!(value(&builder, out), s(139));
    assert_eq!(builder.w_4[0], d);
    assert_eq!(builder.q_4[0], s(7));
    assert_eq!(builder.public_inputs.get(0), Some(s(9)));
    assert_eq!(gate_value(&builder, 0), Scalar::zero());
    assert_lengths(&builder);
}

#[test]
fn arithmetic_gate_solves_for_any_output_selector() {
    let mut builder = Builder::new(4);
    let a = builder.add_input(s(6));
    let b = builder.add_input(s(8));
    let mut gate = ArithmeticGate::new();
    gate.witness(a, b, None).add(s(1), s(1)).out(minus(2));
    let out = builder.arithmetic_gate(gate);
    // 6 + 8 - 2 * c = 0
    assert_eq!(value(&builder, out), s(7));
    assert_eq!(gate_value(&builder, 0), Scalar::zero());
    let mut gate = ArithmeticGate::new();
    gate.witness(a, b, None).mul(s(1)).out(s(3));
    let out = builder.arithmetic_gate(gate);
    // 6 * 8 + 3 * c = 0
    assert_eq!(value(&builder, out), minus(16));
    assert_eq!(gate_value(&builder, 1), Scalar::zero());
}

#[test]
fn dummy_constraints_are_satisfied() {
    let mut builder = Builder::new(4);
    builder.add_dummy_constraints();
    assert_eq!(builder.n, 2);
    assert_eq!(builder.variables, vec![s(0), s(6), s(1), s(7), minus(20)]);
    assert_eq!(builder.q_m, vec![s(1), s(1)]);
    assert_eq!(builder.q_l, vec![s(2), s(1)]);
    assert_eq!(builder.q_r, vec![s(3), s(1)]);
    assert_eq!(builder.q_o, vec![s(4), s(1)]);
    assert_eq!(builder.q_c, vec![s(4), s(127)]);
    assert_eq!(builder.q_4, vec![s(1), s(0)]);
    assert_eq!(builder.q_lookup, vec![s(1), s(1)]);
    assert_eq!(builder.w_l, vec![Variable(1), Variable(4)]);
    assert_eq!(builder.w_r, vec![Variable(3), Variable(1)]);
    assert_eq!(builder.w_o, vec![Variable(4), Variable(3)]);
    assert_eq!(builder.w_4, vec![Variable(2), Variable(0)]);
    assert_eq!(gate_value(&builder, 0), Scalar::zero());
    assert_eq!(gate_value(&builder, 1), Scalar::zero());
    assert_lengths(&builder);
}

#[test]
fn dummy_lookup_table_has_three_rows() {
    let mut builder = Builder::new(4);
    builder.add_dummy_lookup_table();
    assert_eq!(builder.lookup_table.size(), 3);
    assert_eq!(builder.lookup_table.0[0], [s(6), s(7), minus(20), s(1)]);
    assert_eq!(builder.lookup_table.0[1], [minus(20), s(6), s(7), s(0)]);
    assert_eq!(builder.lookup_table.0[2], [s(3), s(1), s(4), s(9)]);
    assert_eq!(builder.lookup_table.lookup(s(6), s(7), s(1)), Ok(minus(20)));
    assert_eq!(builder.n, 0);
    assert_eq!(builder.variables.len(), 1);
}

#[test]
fn blinding_gates_reuse_the_second_pair() {
    let mut builder = Builder::new(4);
    let randoms = [s(11), s(12), s(13), s(14), s(15), s(16), s(17), s(18)];
    builder.add_blinding_gates(randoms);
    assert_eq!(builder.n, 3);
    assert_eq!(&builder.variables[1..], &randoms[..]);
    assert_eq!(builder.w_l, vec![Variable(1), Variable(5), Variable(5)]);
    assert_eq!(builder.w_r, vec![Variable(2), Variable(6), Variable(6)]);
    assert_eq!(builder.w_o, vec![Variable(3), Variable(7), Variable(0)]);
    assert_eq!(builder.w_4, vec![Variable(4), Variable(8), Variable(0)]);
    for i in 0..3 {
        assert_eq!(builder.q_m[i], Scalar::zero());
        assert_eq!(builder.q_l[i], Scalar::zero());
        assert_eq!(builder.q_r[i], Scalar::zero());
        assert_eq!(builder.q_o[i], Scalar::zero());
        assert_eq!(builder.q_4[i], Scalar::zero());
        assert_eq!(builder.q_c[i], Scalar::zero());
        assert_eq!(builder.q_lookup[i], Scalar::zero());
        assert_eq!(gate_value(&builder, i), Scalar::zero());
    }
    assert_lengths(&builder);
}

#[test]
fn blinding_factors_draw_eight_elements() {
    let mut rng = StdRng::seed_from_u64(42);
    let mut builder = Builder::new(4);
    builder.add_blinding_factors(&mut rng);
    assert_eq!(builder.n, 3);
    assert_eq!(builder.variables.len(), 9);
    let mut again = StdRng::seed_from_u64(42);
    for k in 1..9 {
        assert_eq!(builder.variables[k], Scalar::rand(&mut again));
    }
    assert_ne!(builder.variables[1], builder.variables[2]);
    assert_eq!(builder.w_l[2], builder.w_l[1]);
    assert_eq!(builder.w_r[2], builder.w_r[1]);
    for i in 0..3 {
        assert_eq!(gate_value(&builder, i), Scalar::zero());
    }
    assert_lengths(&builder);
}

#[test]
fn lengths_agree_after_a_mixed_sequence_of_operations() {
    let mut builder = Builder::new(2);
    let a = builder.add_input(s(4));
    let b = builder.add_input(s(0));
    assert_lengths(&builder);
    builder.constrain_to_constant(a, s(4), None);
    assert_lengths(&builder);
    let is_zero = builder.is_zero_with_output(b);
    assert_lengths(&builder);
    let picked = builder.conditional_select(is_zero, a, b);
    assert_lengths(&builder);
    builder.assert_equal(picked, a);
    builder.add_dummy_constraints();
    builder.add_blinding_gates([s(1), s(2), s(3), s(4), s(5), s(6), s(7), s(8)]);
    assert_lengths(&builder);
    assert_eq!(builder.n, 13);
    for i in 0..builder.n {
        assert_eq!(gate_value(&builder, i), Scalar::zero());
    }
    let n = builder.n;
    let sigmas = builder.perm.compute_sigma_permutations(n);
    for (index, occurrences) in builder.perm.variable_map.iter().enumerate() {
        for (j, wire) in occurrences.iter().enumerate() {
            let image = match wire {
                WireData::Left(i) => sigmas[0][*i],
                WireData::Right(i) => sigmas[1][*i],
                WireData::Output(i) => sigmas[2][*i],
                WireData::Fourth(i) => sigmas[3][*i],
            };
            assert_eq!(image, occurrences[(j + 1) % occurrences.len()]);
            let holder = match wire {
                WireData::Left(i) => builder.w_l[*i],
                WireData::Right(i) => builder.w_r[*i],
                WireData::Output(i) => builder.w_o[*i],
                WireData::Fourth(i) => builder.w_4[*i],
            };
            assert_eq!(holder, Variable(index));
        }
    }
}
