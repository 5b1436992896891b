use terrain_edit::codec::{
    decode_into, decode_sample, encode_field, encode_sample, PersistenceCause, PersistenceError,
    PersistenceOp, QUANT_STEP,
};
use terrain_edit::field::{HeightField, Rect};
use terrain_edit::MAX_Z_MICRO;

#[test]
fn encode_sample_endpoints() {
    assert_eq!(encode_sample(0), 0);
    assert_eq!(encode_sample(MAX_Z_MICRO), 65535);
    // Out-of-domain elevations are clamped before quantization.
    assert_eq!(encode_sample(-5_000_000), 0);
    assert_eq!(encode_sample(600_000_000), 65535);
}

#[test]
fn decode_sample_endpoints() {
    assert_eq!(decode_sample(0), 0);
    assert_eq!(decode_sample(65535), MAX_Z_MICRO);
}

#[test]
fn sample_round_trip_is_exact() {
    for s in [0u16, 1, 2, 255, 256, 12345, 32768, 65534, 65535] {
        assert_eq!(encode_sample(decode_sample(s)), s);
    }
}

#[test]
fn round_trip_error_within_one_step() {
    for t in [0i64, 1, 7797, 7798, 123_456_789, 255_500_000, 510_999_999, MAX_Z_MICRO] {
        let back = decode_sample(encode_sample(t));
        assert!((back - t).abs() <= QUANT_STEP, "t={} back={}", t, back);
    }
}

#[test]
fn field_of_quantized_values_round_trips_exactly() {
    let mut field = HeightField::new(4, 3, 0);
    for k in 0..12 {
        field.texels[k] = decode_sample((k as u16) * 5000);
    }
    let before = field.texels.clone();
    let bytes = encode_field(&field);
    assert_eq!(bytes.len(), 2 * 12);
    let mut target = HeightField::new(4, 3, 0);
    let touched = decode_into(&mut target, &bytes).unwrap();
    assert_eq!(touched, Rect { x: 0, y: 0, w: 4, h: 3 });
    assert_eq!(target.texels, before);
}

#[test]
fn encode_writes_big_endian_samples() {
    let mut field = HeightField::new(1, 1, 0);
    field.texels[0] = MAX_Z_MICRO;
    let bytes = encode_field(&field);
    assert_eq!(bytes, vec![0xff, 0xff]);
    field.texels[0] = decode_sample(0x1234);
    let bytes2 = encode_field(&field);
    assert_eq!(bytes2, vec![0x12, 0x34]);
}

#[test]
fn load_rejects_dimension_mismatch() {
    let mut field = HeightField::new(2, 2, 77);
    let before = field.texels.clone();
    let bytes = vec![0u8; 6];  // three samples for a four-cell field
    let r = decode_into(&mut field, &bytes);
    assert_eq!(
        r,
        Err(PersistenceError {
            op: PersistenceOp::Load,
            cause: PersistenceCause::DimensionMismatch { expected: 4, actual: 3 },
        })
    );
    assert_eq!(field.texels, before);
}

#[test]
fn load_rejects_odd_byte_count() {
    let mut field = HeightField::new(2, 2, 77);
    let before = field.texels.clone();
    let r = decode_into(&mut field, &vec![0u8; 9]);
    assert!(r.is_err());
    assert_eq!(field.texels, before);
}

#[test]
fn load_overwrites_whole_field_on_success() {
    let mut field = HeightField::new(2, 2, 77);
    let bytes = vec![0x00, 0x00, 0xff, 0xff, 0x00, 0x01, 0x30, 0x39];
    let touched = decode_into(&mut field, &bytes).unwrap();
    assert_eq!(touched, Rect { x: 0, y: 0, w: 2, h: 2 });
    assert_eq!(field.texels[0], 0);
    assert_eq!(field.texels[1], MAX_Z_MICRO);
    assert_eq!(field.texels[2], decode_sample(1));
    assert_eq!(field.texels[3], decode_sample(0x3039));
}
