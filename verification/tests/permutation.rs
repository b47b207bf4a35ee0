use plonk_circuit::domain::EvaluationDomain;
use plonk_circuit::field::Scalar;
use plonk_circuit::permutation::{Permutation, K1, K2, K3};
use plonk_circuit::variable::{Variable, WireData};

fn encode(wire: WireData, roots: &[Scalar]) -> Scalar {
    match wire {
        WireData::Left(i) => roots[i],
        WireData::Right(i) => Scalar::from_u64(K1).mul(&roots[i]),
        WireData::Output(i) => Scalar::from_u64(K2).mul(&roots[i]),
        WireData::Fourth(i) => Scalar::from_u64(K3).mul(&roots[i]),
    }
}

fn apply(sigmas: &[Vec<WireData>; 4], wire: WireData) -> WireData {
    match wire {
        WireData::Left(i) => sigmas[0][i],
        WireData::Right(i) => sigmas[1][i],
        WireData::Output(i) => sigmas[2][i],
        WireData::Fourth(i) => sigmas[3][i],
    }
}

fn three_gate_record() -> (Permutation, Variable, Variable) {
    let mut perm = Permutation::new();
    let zero = perm.new_variable();
    let v = perm.new_variable();
    perm.add_variables_to_map(v, zero, zero, zero, 0);
    perm.add_variables_to_map(zero, v, zero, zero, 1);
    perm.add_variables_to_map(zero, zero, v, zero, 2);
    (perm, zero, v)
}

#[test]
fn permutation_cycle() {
    let (mut perm, _, v) = three_gate_record();
    assert_eq!(
        perm.variable_map[v.0],
        vec![WireData::Left(0), WireData::Right(1), WireData::Output(2)]
    );
    let sigmas = perm.compute_sigma_permutations(3);
    assert_eq!(sigmas[0][0], WireData::Right(1));
    assert_eq!(sigmas[1][1], WireData::Output(2));
    assert_eq!(sigmas[2][2], WireData::Left(0));
}

#[test]
fn every_variable_has_a_closed_cycle() {
    let (mut perm, _, _) = three_gate_record();
    let sigmas = perm.compute_sigma_permutations(3);
    for occurrences in perm.variable_map.iter() {
        for start in occurrences.iter() {
            let mut wire = *start;
            for _ in 0..occurrences.len() {
                wire = apply(&sigmas, wire);
            }
            assert_eq!(wire, *start);
        }
    }
}

#[test]
fn zero_variable_cycle_follows_the_insertion_order() {
    let (mut perm, zero, _) = three_gate_record();
    let expected = vec![
        WireData::Right(0),
        WireData::Output(0),
        WireData::Fourth(0),
        WireData::Left(1),
        WireData::Output(1),
        WireData::Fourth(1),
        WireData::Left(2),
        WireData::Right(2),
        WireData::Fourth(2),
    ];
    assert_eq!(perm.variable_map[zero.0], expected);
    let sigmas = perm.compute_sigma_permutations(3);
    for (j, wire) in expected.iter().enumerate() {
        assert_eq!(apply(&sigmas, *wire), expected[(j + 1) % expected.len()]);
    }
}

#[test]
fn new_variable_counts_up_from_zero() {
    let mut perm = Permutation::with_capacity(4);
    assert_eq!(perm.new_variable(), Variable(0));
    assert_eq!(perm.new_variable(), Variable(1));
    assert_eq!(perm.new_variable(), Variable(2));
    assert_eq!(perm.variable_map.len(), 3);
    assert!(perm.variable_map.iter().all(|positions| positions.is_empty()));
}

#[test]
fn valid_variables_knows_the_allocated_ones() {
    let mut perm = Permutation::new();
    let a = perm.new_variable();
    let b = perm.new_variable();
    assert!(perm.valid_variables(&[a, b]));
    assert!(perm.valid_variables(&[]));
    assert!(!perm.valid_variables(&[a, Variable(2)]));
    assert!(!perm.valid_variables(&[Variable(7)]));
}

#[test]
fn add_variable_to_map_appends_one_position() {
    let mut perm = Permutation::new();
    let a = perm.new_variable();
    let b = perm.new_variable();
    perm.add_variable_to_map(a, WireData::Fourth(3));
    perm.add_variable_to_map(b, WireData::Left(1));
    perm.add_variable_to_map(a, WireData::Output(0));
    assert_eq!(perm.variable_map[a.0], vec![WireData::Fourth(3), WireData::Output(0)]);
    assert_eq!(perm.variable_map[b.0], vec![WireData::Left(1)]);
}

#[test]
fn one_variable_on_all_wires_of_a_gate() {
    let mut perm = Permutation::new();
    let a = perm.new_variable();
    perm.add_variables_to_map(a, a, a, a, 0);
    assert_eq!(
        perm.variable_map[a.0],
        vec![WireData::Left(0), WireData::Right(0), WireData::Output(0), WireData::Fourth(0)]
    );
    let sigmas = perm.compute_sigma_permutations(1);
    assert_eq!(sigmas[0], vec![WireData::Right(0)]);
    assert_eq!(sigmas[1], vec![WireData::Output(0)]);
    assert_eq!(sigmas[2], vec![WireData::Fourth(0)]);
    assert_eq!(sigmas[3], vec![WireData::Left(0)]);
}

#[test]
fn sigma_of_an_empty_record_is_the_identity() {
    let mut perm = Permutation::new();
    let sigmas = perm.compute_sigma_permutations(3);
    assert_eq!(sigmas[0], vec![WireData::Left(0), WireData::Left(1), WireData::Left(2)]);
    assert_eq!(sigmas[1], vec![WireData::Right(0), WireData::Right(1), WireData::Right(2)]);
    assert_eq!(sigmas[2], vec![WireData::Output(0), WireData::Output(1), WireData::Output(2)]);
    assert_eq!(sigmas[3], vec![WireData::Fourth(0), WireData::Fourth(1), WireData::Fourth(2)]);
    let none = perm.compute_sigma_permutations(0);
    assert!(none.iter().all(|sigma| sigma.is_empty()));
}

#[test]
fn single_occurrence_maps_to_itself() {
    let mut perm = Permutation::new();
    let a = perm.new_variable();
    perm.add_variable_to_map(a, WireData::Output(1));
    let sigmas = perm.compute_sigma_permutations(2);
    assert_eq!(sigmas[2][1], WireData::Output(1));
    assert_eq!(sigmas[2][0], WireData::Output(0));
}

#[test]
fn unused_gates_keep_the_identity() {
    let (mut perm, _, _) = three_gate_record();
    let sigmas = perm.compute_sigma_permutations(5);
    for sigma in sigmas.iter() {
        assert_eq!(sigma.len(), 5);
    }
    assert_eq!(sigmas[0][3], WireData::Left(3));
    assert_eq!(sigmas[1][4], WireData::Right(4));
    assert_eq!(sigmas[2][3], WireData::Output(3));
    assert_eq!(sigmas[3][4], WireData::Fourth(4));
}

#[test]
fn sigma_is_a_function_of_the_record() {
    let (mut first, _, _) = three_gate_record();
    let (mut second, _, _) = three_gate_record();
    let sigmas = first.compute_sigma_permutations(3);
    assert_eq!(sigmas, second.compute_sigma_permutations(3));
    assert_eq!(sigmas, first.compute_sigma_permutations(3));
}

#[test]
fn a_position_recorded_twice_takes_its_last_entry() {
    let mut perm = Permutation::new();
    let a = perm.new_variable();
    let b = perm.new_variable();
    perm.add_variable_to_map(a, WireData::Left(0));
    perm.add_variable_to_map(a, WireData::Right(0));
    perm.add_variable_to_map(b, WireData::Left(0));
    perm.add_variable_to_map(b, WireData::Output(0));
    let sigmas = perm.compute_sigma_permutations(1);
    assert_eq!(sigmas[0][0], WireData::Output(0));
    assert_eq!(sigmas[1][0], WireData::Left(0));
    assert_eq!(sigmas[2][0], WireData::Left(0));
}

#[test]
fn lagrange_encoding_uses_the_coset_multipliers() {
    assert_eq!((K1, K2, K3), (7, 13, 17));
    let perm = Permutation::new();
    let domain = EvaluationDomain::new(4).unwrap();
    let roots = domain.elements();
    let mapping = [
        WireData::Left(2),
        WireData::Right(0),
        WireData::Output(3),
        WireData::Fourth(1),
    ];
    let encoded = perm.compute_permutation_lagrange(&mapping, &domain);
    assert_eq!(encoded.len(), 4);
    assert_eq!(encoded[0], roots[2]);
    assert_eq!(encoded[1], Scalar::from_u64(7));
    assert_eq!(encoded[2], Scalar::from_u64(13).mul(&roots[3]));
    assert_eq!(encoded[3], Scalar::from_u64(17).mul(&roots[1]));
    assert!(perm.compute_permutation_lagrange(&[], &domain).is_empty());
}

#[test]
fn sigma_polynomials_interpolate_the_encoded_permutations() {
    let (mut perm, _, _) = three_gate_record();
    let domain = EvaluationDomain::new(4).unwrap();
    let roots = domain.elements();
    let sigmas = perm.compute_sigma_permutations(4);
    let polys = perm.compute_sigma_polynomials(4, &domain);
    let polys = [polys.0, polys.1, polys.2, polys.3];
    for column in 0..4 {
        assert!(polys[column].len() <= 4);
        for i in 0..4 {
            assert_eq!(polys[column].evaluate(&roots[i]), encode(sigmas[column][i], &roots));
        }
    }
}

#[test]
fn sigma_polynomials_over_a_larger_domain_pad_with_zero() {
    let (mut perm, _, _) = three_gate_record();
    let domain = EvaluationDomain::new(8).unwrap();
    let roots = domain.elements();
    let sigmas = perm.compute_sigma_permutations(3);
    let polys = perm.compute_sigma_polynomials(3, &domain);
    for i in 0..8 {
        let expected = if i < 3 { encode(sigmas[0][i], &roots) } else { Scalar::zero() };
        assert_eq!(polys.0.evaluate(&roots[i]), expected);
    }
}
