use hydra::bignum::BigNum;

#[test]
fn from_i64_spells_small_numbers() {
    assert_eq!(BigNum::from_i64(5).to_bytes_le(), vec![5]);
    assert_eq!(BigNum::from_i64(0).to_bytes_le(), vec![0]);
    assert_eq!(BigNum::from_i64(257).to_bytes_le(), vec![1, 1]);
    assert_eq!(BigNum::from_i64(255).to_bytes_le(), vec![255]);
}

#[test]
fn to_bytes_le_drops_the_sign() {
    assert_eq!(BigNum::from_i64(-1125).to_bytes_le(), vec![101, 4]);
}

#[test]
fn from_bytes_le_reads_least_significant_byte_first() {
    assert_eq!(BigNum::from_bytes_le(&vec![1, 1]), BigNum::from_i64(257));
    assert_eq!(BigNum::from_bytes_le(&vec![]), BigNum::from_i64(0));
    assert_eq!(BigNum::from_bytes_le(&vec![0, 0]), BigNum::from_i64(0));
    // a top byte above 127 still spells a natural number
    assert_eq!(BigNum::from_bytes_le(&vec![255]), BigNum::from_i64(255));
}

#[test]
fn to_bytes_le_is_the_shortest_spelling() {
    assert_eq!(BigNum::from_bytes_le(&vec![7, 0, 0]).to_bytes_le(), vec![7]);
    let wide: Vec<u8> = (1..=40).collect();
    assert_eq!(BigNum::from_bytes_le(&wide).to_bytes_le(), wide);
}

#[test]
fn equality_goes_by_value() {
    assert_eq!(BigNum::from_i64(-3), BigNum::from_i64(-3));
    assert_ne!(BigNum::from_i64(-3), BigNum::from_i64(3));
    assert_eq!(BigNum::from_i64(12).clone(), BigNum::from_i64(12));
}

#[test]
fn signed_bytes_round_trip() {
    for v in [0i64, 1, -1, 127, 128, -128, -129, 255, 256, -1125, i64::MAX, i64::MIN] {
        let n = BigNum::from_i64(v);
        assert_eq!(BigNum::from_signed_bytes_le(n.to_signed_bytes_le()), n);
    }
    assert_eq!(BigNum::from_signed_bytes_le(vec![155, 251]), BigNum::from_i64(-1125));
    assert_eq!(BigNum::from_signed_bytes_le(vec![255]), BigNum::from_i64(-1));
    assert_eq!(BigNum::from_signed_bytes_le(vec![255, 0]), BigNum::from_i64(255));
    assert_eq!(BigNum::from_signed_bytes_le(vec![]), BigNum::from_i64(0));
    // a spelling need not be the shortest
    assert_eq!(BigNum::from_signed_bytes_le(vec![1, 0, 0]), BigNum::from_i64(1));
    assert_eq!(BigNum::from_signed_bytes_le(vec![1, 0, 0]).to_bytes_le(), vec![1]);
}
