use plonk_circuit::error::Error;
use plonk_circuit::field::Scalar;
use plonk_circuit::public_inputs::PublicInputs;

fn s(x: u64) -> Scalar {
    Scalar::from_u64(x)
}

#[test]
fn new_public_inputs_are_empty() {
    let inputs = PublicInputs::new();
    assert!(!inputs.contains(0));
    assert_eq!(inputs.get(0), None);
    assert!(inputs.positions.is_empty());
    assert!(inputs.values.is_empty());
}

#[test]
fn insert_binds_a_free_position() {
    let mut inputs = PublicInputs::new();
    assert_eq!(inputs.insert(4, s(9)), Ok(()));
    assert_eq!(inputs.insert(2, s(0)), Ok(()));
    assert!(inputs.contains(4));
    assert!(inputs.contains(2));
    assert!(!inputs.contains(3));
    assert_eq!(inputs.get(4), Some(s(9)));
    assert_eq!(inputs.get(2), Some(s(0)));
    assert_eq!(inputs.get(3), None);
}

#[test]
fn insert_fails_on_a_taken_position() {
    let mut inputs = PublicInputs::new();
    assert_eq!(inputs.insert(4, s(9)), Ok(()));
    assert_eq!(inputs.insert(4, s(1)), Err(Error::PositionAlreadyTaken));
    assert_eq!(inputs.get(4), Some(s(9)));
    assert_eq!(inputs.positions, vec![4]);
}

#[test]
fn add_input_binds_consecutive_positions() {
    let mut inputs = PublicInputs::new();
    assert_eq!(inputs.add_input(3, &vec![s(7), s(8), s(9)]), Ok(3));
    assert_eq!(inputs.get(3), Some(s(7)));
    assert_eq!(inputs.get(4), Some(s(8)));
    assert_eq!(inputs.get(5), Some(s(9)));
    assert_eq!(inputs.get(6), None);
    assert_eq!(inputs.add_input(0, &vec![]), Ok(0));
    assert_eq!(inputs.positions, vec![3, 4, 5]);
}

#[test]
fn add_input_fails_as_a_whole() {
    let mut inputs = PublicInputs::new();
    assert_eq!(inputs.insert(5, s(1)), Ok(()));
    assert_eq!(inputs.add_input(3, &vec![s(7), s(8), s(9)]), Err(Error::PositionAlreadyTaken));
    assert_eq!(inputs.get(3), None);
    assert_eq!(inputs.get(4), None);
    assert_eq!(inputs.get(5), Some(s(1)));
    assert_eq!(inputs.add_input(3, &vec![s(7), s(8)]), Ok(2));
}
