use plonk_circuit::error::Error;
use plonk_circuit::field::Scalar;
use plonk_circuit::lookup_table::{LookupTable, MultiSet};

fn s(x: u64) -> Scalar {
    Scalar::from_u64(x)
}

fn minus_one() -> Scalar {
    Scalar::one().neg()
}

#[test]
fn lookup_xor_row() {
    let mut table = LookupTable::new();
    table.insert_xor_row(5, 3, 8);
    assert_eq!(table.lookup(s(5), s(3), minus_one()), Ok(s(6)));
}

#[test]
fn new_table_is_empty() {
    let table = LookupTable::new();
    assert_eq!(table.size(), 0);
    assert_eq!(LookupTable::default().size(), 0);
    assert_eq!(table.lookup(s(0), s(0), s(0)), Err(Error::ElementNotIndexed));
}

#[test]
fn insert_row_appends_without_deduplication() {
    let mut table = LookupTable::new();
    table.insert_row(s(1), s(2), s(3), s(4));
    table.insert_row(s(1), s(2), s(3), s(4));
    assert_eq!(table.size(), 2);
    assert_eq!(table.0[0], [s(1), s(2), s(3), s(4)]);
    assert_eq!(table.0[1], [s(1), s(2), s(3), s(4)]);
}

#[test]
fn add_row_reduces_the_sum_modulo_the_bound() {
    let mut table = LookupTable::new();
    table.insert_add_row(5, 6, 8);
    assert_eq!(table.0[0], [s(5), s(6), s(3), s(0)]);
    table.insert_add_row(u64::MAX, u64::MAX, u64::MAX);
    // (2^64 - 1) + (2^64 - 1) = 2 * (2^64 - 1), which the bound divides
    assert_eq!(table.0[1], [s(u64::MAX), s(u64::MAX), s(0), s(0)]);
    table.insert_add_row(u64::MAX, 2, 10);
    // 18446744073709551615 + 2 = 18446744073709551617, which ends in 7
    assert_eq!(table.0[2], [s(u64::MAX), s(2), s(7), s(0)]);
}

#[test]
fn mul_row_reduces_the_product_modulo_the_bound() {
    let mut table = LookupTable::new();
    table.insert_mul_row(5, 6, 8);
    assert_eq!(table.0[0], [s(5), s(6), s(6), s(1)]);
    table.insert_mul_row(u64::MAX, u64::MAX, 1000);
    // (2^64 - 1)^2 = 340282366920938463426481119284349108225
    assert_eq!(table.0[1], [s(u64::MAX), s(u64::MAX), s(225), s(1)]);
}

#[test]
fn xor_and_and_rows_are_bitwise() {
    let mut table = LookupTable::new();
    table.insert_xor_row(12, 10, 16);
    table.insert_and_row(12, 10, 16);
    table.insert_xor_row(12, 10, 4);
    table.insert_and_row(15, 7, 4);
    assert_eq!(table.0[0], [s(12), s(10), s(6), minus_one()]);
    assert_eq!(table.0[1], [s(12), s(10), s(8), s(2)]);
    assert_eq!(table.0[2], [s(12), s(10), s(2), minus_one()]);
    assert_eq!(table.0[3], [s(15), s(7), s(3), s(2)]);
}

#[test]
fn lookup_returns_the_first_match() {
    let mut table = LookupTable::new();
    table.insert_row(s(1), s(2), s(10), s(0));
    table.insert_row(s(1), s(2), s(20), s(1));
    table.insert_row(s(1), s(2), s(30), s(0));
    assert_eq!(table.lookup(s(1), s(2), s(0)), Ok(s(10)));
    assert_eq!(table.lookup(s(1), s(2), s(1)), Ok(s(20)));
}

#[test]
fn lookup_fails_without_a_match() {
    let mut table = LookupTable::new();
    table.insert_row(s(1), s(2), s(10), s(0));
    assert_eq!(table.lookup(s(1), s(2), s(1)), Err(Error::ElementNotIndexed));
    assert_eq!(table.lookup(s(2), s(1), s(0)), Err(Error::ElementNotIndexed));
    assert_eq!(table.lookup(s(1), s(3), s(0)), Err(Error::ElementNotIndexed));
}

#[test]
fn lookup_round_trip_of_inserted_rows() {
    let mut table = LookupTable::new();
    table.insert_add_row(3, 4, 16);
    table.insert_mul_row(3, 4, 16);
    table.insert_xor_row(3, 4, 16);
    table.insert_and_row(3, 6, 16);
    table.insert_row(s(9), s(8), s(7), s(6));
    assert_eq!(table.lookup(s(3), s(4), s(0)), Ok(s(7)));
    assert_eq!(table.lookup(s(3), s(4), s(1)), Ok(s(12)));
    assert_eq!(table.lookup(s(3), s(4), minus_one()), Ok(s(7)));
    assert_eq!(table.lookup(s(3), s(6), s(2)), Ok(s(2)));
    assert_eq!(table.lookup(s(9), s(8), s(6)), Ok(s(7)));
}

#[test]
fn lookup_keeps_finding_the_earlier_row_with_the_same_inputs() {
    let mut table = LookupTable::new();
    table.insert_row(s(1), s(1), s(5), s(0));
    table.insert_row(s(1), s(1), s(6), s(0));
    assert_eq!(table.lookup(s(1), s(1), s(0)), Ok(s(5)));
}

#[test]
fn multi_add_covers_all_pairs_in_order() {
    let mut table = LookupTable::new();
    table.insert_multi_add(0, 2);
    assert_eq!(table.size(), 16);
    for a in 0..4u64 {
        for b in 0..4u64 {
            let row = table.0[(a * 4 + b) as usize];
            assert_eq!(row, [s(a), s(b), s((a + b) % 4), s(0)]);
        }
    }
}

#[test]
fn multi_insert_starts_at_the_lower_bound() {
    let mut table = LookupTable::new();
    table.insert_multi_mul(2, 2);
    assert_eq!(table.size(), 4);
    assert_eq!(table.0[0], [s(2), s(2), s(0), s(1)]);
    assert_eq!(table.0[1], [s(2), s(3), s(2), s(1)]);
    assert_eq!(table.0[2], [s(3), s(2), s(2), s(1)]);
    assert_eq!(table.0[3], [s(3), s(3), s(1), s(1)]);
}

#[test]
fn multi_insert_with_lower_bound_at_the_upper_bound_adds_nothing() {
    let mut table = LookupTable::new();
    table.insert_multi_xor(4, 2);
    table.insert_multi_and(9, 2);
    assert_eq!(table.size(), 0);
    table.insert_multi_add(0, 0);
    assert_eq!(table.size(), 1);
    assert_eq!(table.0[0], [s(0), s(0), s(0), s(0)]);
}

#[test]
fn multi_xor_and_and_append_after_existing_rows() {
    let mut table = LookupTable::new();
    table.insert_row(s(7), s(7), s(7), s(7));
    table.insert_multi_xor(0, 1);
    table.insert_multi_and(0, 1);
    assert_eq!(table.size(), 9);
    assert_eq!(table.0[0], [s(7), s(7), s(7), s(7)]);
    assert_eq!(table.0[1], [s(0), s(0), s(0), minus_one()]);
    assert_eq!(table.0[2], [s(0), s(1), s(1), minus_one()]);
    assert_eq!(table.0[3], [s(1), s(0), s(1), minus_one()]);
    assert_eq!(table.0[4], [s(1), s(1), s(0), minus_one()]);
    assert_eq!(table.0[5], [s(0), s(0), s(0), s(2)]);
    assert_eq!(table.0[8], [s(1), s(1), s(1), s(2)]);
}

#[test]
fn table_constructors_build_the_full_tables() {
    let add = LookupTable::add_table(0, 3);
    let xor = LookupTable::xor_table(0, 3);
    let mul = LookupTable::mul_table(0, 3);
    assert_eq!(add.size(), 64);
    assert_eq!(xor.size(), 64);
    assert_eq!(mul.size(), 64);
    assert_eq!(add.lookup(s(7), s(6), s(0)), Ok(s(5)));
    assert_eq!(xor.lookup(s(7), s(6), minus_one()), Ok(s(1)));
    assert_eq!(mul.lookup(s(7), s(6), s(1)), Ok(s(2)));
    assert_eq!(add.lookup(s(8), s(0), s(0)), Err(Error::ElementNotIndexed));
}

#[test]
fn vec_to_multiset_splits_the_columns() {
    let mut table = LookupTable::new();
    table.insert_row(s(1), s(2), s(3), s(4));
    table.insert_row(s(5), s(6), s(7), s(8));
    table.insert_row(s(1), s(2), s(3), s(4));
    let columns = table.vec_to_multiset();
    assert_eq!(columns.len(), 4);
    assert_eq!(columns[0].0, vec![s(1), s(5), s(1)]);
    assert_eq!(columns[1].0, vec![s(2), s(6), s(2)]);
    assert_eq!(columns[2].0, vec![s(3), s(7), s(3)]);
    assert_eq!(columns[3].0, vec![s(4), s(8), s(4)]);
    assert_eq!(columns[3].len(), 3);
}

#[test]
fn vec_to_multiset_of_the_empty_table() {
    let columns = LookupTable::new().vec_to_multiset();
    assert_eq!(columns.len(), 4);
    for column in columns.iter() {
        assert_eq!(column.len(), 0);
    }
}

#[test]
fn multiset_push_appends() {
    let mut set = MultiSet::new();
    assert_eq!(set.len(), 0);
    set.push(s(3));
    set.push(s(3));
    set.push(s(1));
    assert_eq!(set.0, vec![s(3), s(3), s(1)]);
}
