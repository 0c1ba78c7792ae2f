use parsecdb::error::ParsecError;
use parsecdb::types::distance_key;

#[test]
fn dimension_mismatch_message() {
    let e = ParsecError::DimensionMismatch { expected: 128, found: 3 };
    assert_eq!(e.to_string(), "Dimenson mismatch: expected 128, but found 3");
}

#[test]
fn vector_not_found_message() {
    let e = ParsecError::VectorNotFound(18446744073709551615);
    assert_eq!(e.to_string(), "Vector with ID 18446744073709551615 not found");
    assert_eq!(ParsecError::VectorNotFound(0).to_string(), "Vector with ID 0 not found");
    assert_eq!(ParsecError::VectorNotFound(10).to_string(), "Vector with ID 10 not found");
}

#[test]
fn distance_key_orders_like_floats() {
    let values = [-3.5f32, -1.0, -0.0, 0.0, 1e-30, 0.25, 1.0, 7.0, f32::INFINITY];
    for w in values.windows(2) {
        assert!(distance_key(w[0].to_bits()) < distance_key(w[1].to_bits()));
    }
    assert_eq!(distance_key(0.0f32.to_bits()), 0x8000_0000);
    assert_eq!(distance_key((-0.0f32).to_bits()), 0x7FFF_FFFF);
}
