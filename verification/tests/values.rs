use hydra::values::{mysql_val_to_string, mysql_val_to_u64, SqlValue, ValueError};

#[test]
fn a_missing_value_is_null() {
    assert_eq!(mysql_val_to_string(&SqlValue::Null), "NULL");
}

#[test]
fn integers_are_written_in_decimal() {
    assert_eq!(mysql_val_to_string(&SqlValue::Int(-42)), "-42");
    assert_eq!(mysql_val_to_string(&SqlValue::Int(0)), "0");
    assert_eq!(mysql_val_to_string(&SqlValue::UInt(u64::MAX)), "18446744073709551615");
}

#[test]
fn bytes_are_decoded_and_unescaped() {
    assert_eq!(mysql_val_to_string(&SqlValue::Bytes(b"it''s".to_vec())), "it's");
    assert_eq!(mysql_val_to_string(&SqlValue::Bytes("héllo".as_bytes().to_vec())), "héllo");
    assert_eq!(mysql_val_to_string(&SqlValue::Bytes(vec![])), "");
}

#[test]
fn bytes_that_are_no_text_give_the_empty_string() {
    assert_eq!(mysql_val_to_string(&SqlValue::Bytes(vec![0xff, 0xfe])), "");
    assert_eq!(mysql_val_to_string(&SqlValue::Bytes(vec![b'a', 0x80])), "");
}

#[test]
fn unsigned_integers_are_their_own_number() {
    assert_eq!(mysql_val_to_u64(&SqlValue::UInt(7)), Ok(7));
    assert_eq!(mysql_val_to_u64(&SqlValue::UInt(u64::MAX)), Ok(u64::MAX));
}

#[test]
fn signed_integers_that_are_natural_are_numbers() {
    assert_eq!(mysql_val_to_u64(&SqlValue::Int(12)), Ok(12));
    assert_eq!(mysql_val_to_u64(&SqlValue::Int(i64::MAX)), Ok(i64::MAX as u64));
    assert_eq!(mysql_val_to_u64(&SqlValue::Int(-1)), Err(ValueError::Malformed));
}

#[test]
fn bytes_that_spell_a_number_are_numbers() {
    assert_eq!(mysql_val_to_u64(&SqlValue::Bytes(b"123".to_vec())), Ok(123));
    assert_eq!(mysql_val_to_u64(&SqlValue::Bytes(b"12a".to_vec())), Err(ValueError::Malformed));
    assert_eq!(mysql_val_to_u64(&SqlValue::Bytes(b"".to_vec())), Err(ValueError::Malformed));
    assert_eq!(mysql_val_to_u64(&SqlValue::Bytes(vec![0xff])), Err(ValueError::Malformed));
    assert_eq!(
        mysql_val_to_u64(&SqlValue::Bytes(b"18446744073709551616".to_vec())),
        Err(ValueError::Malformed)
    );
}

#[test]
fn other_values_are_no_integers() {
    assert_eq!(mysql_val_to_u64(&SqlValue::Null), Err(ValueError::NotAnInt));
    assert_eq!(mysql_val_to_u64(&SqlValue::Date(2020, 1, 1, 0, 0, 0, 0)), Err(ValueError::NotAnInt));
    assert_eq!(mysql_val_to_u64(&SqlValue::Time(false, 0, 1, 0, 0, 0)), Err(ValueError::NotAnInt));
}

#[test]
fn a_number_may_carry_a_plus_sign_and_leading_zeros() {
    assert_eq!(mysql_val_to_u64(&SqlValue::Bytes(b"+12".to_vec())), Ok(12));
    assert_eq!(mysql_val_to_u64(&SqlValue::Bytes(b"0012".to_vec())), Ok(12));
    assert_eq!(mysql_val_to_u64(&SqlValue::Bytes(b"18446744073709551615".to_vec())), Ok(u64::MAX));
    assert_eq!(mysql_val_to_u64(&SqlValue::Bytes(b"+".to_vec())), Err(ValueError::Malformed));
    assert_eq!(mysql_val_to_u64(&SqlValue::Bytes(b"++1".to_vec())), Err(ValueError::Malformed));
    assert_eq!(mysql_val_to_u64(&SqlValue::Bytes(b"-0".to_vec())), Err(ValueError::Malformed));
    assert_eq!(mysql_val_to_u64(&SqlValue::Bytes(b" 1".to_vec())), Err(ValueError::Malformed));
    assert_eq!(mysql_val_to_u64(&SqlValue::Bytes("\u{0663}".as_bytes().to_vec())), Err(ValueError::Malformed));
}

#[test]
fn the_least_signed_integer_is_written_whole() {
    assert_eq!(mysql_val_to_string(&SqlValue::Int(i64::MIN)), "-9223372036854775808");
    assert_eq!(mysql_val_to_string(&SqlValue::Int(10)), "10");
    assert_eq!(mysql_val_to_string(&SqlValue::UInt(1000)), "1000");
    assert_eq!(mysql_val_to_u64(&SqlValue::Int(i64::MIN)), Err(ValueError::Malformed));
    assert_eq!(mysql_val_to_u64(&SqlValue::Int(0)), Ok(0));
}
