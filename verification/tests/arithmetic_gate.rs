use plonk_circuit::arithmetic_gate::ArithmeticGate;
use plonk_circuit::field::Scalar;
use plonk_circuit::variable::Variable;

fn s(x: u64) -> Scalar {
    Scalar::from_u64(x)
}

#[test]
fn default_descriptor_has_minus_one_on_the_output() {
    let gate = ArithmeticGate::new();
    assert!(gate.witness.is_none());
    assert!(gate.fan_in_3.is_none());
    assert!(gate.pi.is_none());
    assert_eq!(gate.mul_selector, Scalar::zero());
    assert_eq!(gate.add_selectors, (Scalar::zero(), Scalar::zero()));
    assert_eq!(gate.out_selector, Scalar::one().neg());
    assert_eq!(gate.const_selector, Scalar::zero());
    let default = ArithmeticGate::default();
    assert_eq!(default.out_selector, Scalar::one().neg());
    assert!(default.witness.is_none());
}

#[test]
fn setters_change_one_field_each() {
    let mut gate = ArithmeticGate::new();
    gate.witness(Variable(1), Variable(2), None);
    assert_eq!(gate.witness, Some((Variable(1), Variable(2), None)));
    gate.witness(Variable(1), Variable(2), Some(Variable(3)));
    assert_eq!(gate.witness, Some((Variable(1), Variable(2), Some(Variable(3)))));
    gate.fan_in_3(s(4), Variable(5));
    assert_eq!(gate.fan_in_3, Some((s(4), Variable(5))));
    gate.mul(s(6));
    assert_eq!(gate.mul_selector, s(6));
    gate.add(s(7), s(8));
    assert_eq!(gate.add_selectors, (s(7), s(8)));
    gate.out(s(9));
    assert_eq!(gate.out_selector, s(9));
    gate.constant(s(10));
    assert_eq!(gate.const_selector, s(10));
    gate.pi(s(11));
    assert_eq!(gate.pi, Some(s(11)));
    assert_eq!(gate.witness, Some((Variable(1), Variable(2), Some(Variable(3)))));
    assert_eq!(gate.mul_selector, s(6));
}

#[test]
fn setters_chain_and_build_copies() {
    let mut gate = ArithmeticGate::new();
    let built = gate
        .witness(Variable(0), Variable(1), None)
        .mul(s(2))
        .add(s(3), s(4))
        .constant(s(5))
        .build();
    assert_eq!(built.witness, Some((Variable(0), Variable(1), None)));
    assert_eq!(built.mul_selector, s(2));
    assert_eq!(built.add_selectors, (s(3), s(4)));
    assert_eq!(built.const_selector, s(5));
    assert_eq!(built.out_selector, Scalar::one().neg());
    assert_eq!(gate.mul_selector, s(2));
}
