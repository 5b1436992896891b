//! The persistence codec: each elevation sample is quantized into a
//! 16-bit raster sample over the domain `[0, MAX_Z_MICRO]` and written
//! big-endian, row-major; loading inverts the mapping into an
//! already-allocated field of the same cell count.

use vstd::prelude::*;
use vstd::arithmetic::div_mod::{
    lemma_div_is_ordered, lemma_div_multiples_vanish_fancy, lemma_div_pos_is_pos,
    lemma_fundamental_div_mod, lemma_hoist_over_denominator, lemma_mod_division_less_than_divisor,
};
use crate::{clampi, elev_ok, MAX_Z_MICRO};
use crate::field::{lemma_grid_cells_bounded, HeightField, Rect};

verus! {

/// Largest 16-bit raster sample.
pub const SAMPLE_MAX: u16 = 65535;

/// Half of `MAX_Z_MICRO`, the rounding offset of the encoder.
pub const HALF_DOMAIN: i64 = 255_500_000;

/// Half of `SAMPLE_MAX` rounded down, the rounding offset of the
/// decoder.
pub const HALF_SAMPLE: i64 = 32767;

/// One quantization step, `MAX_Z_MICRO / 65535` rounded up: the codec's
/// round-trip error bound in micro-units.
pub const QUANT_STEP: i64 = 7798;

/// The raster sample an elevation quantizes to: the elevation is clamped
/// into `[0, MAX_Z_MICRO]`, scaled to `[0, 65535]` and rounded to the
/// nearest sample.
pub open spec fn encode_sample_spec(t: int) -> int {
    let c = clampi(t, 0, MAX_Z_MICRO as int);
    (c * (SAMPLE_MAX as int) + (HALF_DOMAIN as int)) / (MAX_Z_MICRO as int)
}

/// The elevation a raster sample decodes to: scaled back into
/// `[0, MAX_Z_MICRO]` and rounded to the nearest micro-unit.
pub open spec fn decode_sample_spec(s: int) -> int {
    (s * (MAX_Z_MICRO as int) + (HALF_SAMPLE as int)) / (SAMPLE_MAX as int)
}

/// The big-endian 16-bit sample stored for cell `k` of a raster byte
/// stream.
pub open spec fn be16_of(bytes: Seq<u8>, k: int) -> int {
    (bytes[2 * k] as int) * 256 + (bytes[2 * k + 1] as int)
}

/// The raster sample of an elevation.
pub fn encode_sample(t: i64) -> (s: u16)
    requires
        elev_ok(t as int),
    ensures
        s as int == encode_sample_spec(t as int),
{
    let c: i64 = crate::clamp_i64(t, 0, MAX_Z_MICRO);
    proof {
        crate::lemma_clamp_in_range(t as int, 0, MAX_Z_MICRO as int);
        assert(0 <= (c as int) * (SAMPLE_MAX as int) <= (MAX_Z_MICRO as int) * (SAMPLE_MAX as int))
            by (nonlinear_arith)
            requires
                0 <= c as int <= MAX_Z_MICRO as int,
                SAMPLE_MAX as int > 0,
        ;
    }
    let num: u64 = (c as u64) * (SAMPLE_MAX as u64) + (HALF_DOMAIN as u64);
    let q: u64 = num / (MAX_Z_MICRO as u64);
    proof {
        lemma_div_pos_is_pos(num as int, MAX_Z_MICRO as int);
        lemma_div_is_ordered(
            num as int,
            (MAX_Z_MICRO as int) * (SAMPLE_MAX as int) + (HALF_DOMAIN as int),
            MAX_Z_MICRO as int,
        );
        lemma_div_multiples_vanish_fancy(SAMPLE_MAX as int, HALF_DOMAIN as int, MAX_Z_MICRO as int);
        assert((MAX_Z_MICRO as int) * (SAMPLE_MAX as int) == (MAX_Z_MICRO as int) * (
        SAMPLE_MAX as int));
    }
    q as u16
}

/// The elevation of a raster sample; always inside the codec domain.
pub fn decode_sample(s: u16) -> (t: i64)
    ensures
        t as int == decode_sample_spec(s as int),
        0 <= t <= MAX_Z_MICRO,
        elev_ok(t as int),
{
    proof {
        assert(0 <= (s as int) * (MAX_Z_MICRO as int) <= (SAMPLE_MAX as int) * (MAX_Z_MICRO as int))
            by (nonlinear_arith)
            requires
                0 <= s as int <= SAMPLE_MAX as int,
                MAX_Z_MICRO as int > 0,
        ;
    }
    let num: u64 = (s as u64) * (MAX_Z_MICRO as u64) + (HALF_SAMPLE as u64);
    let q: u64 = num / (SAMPLE_MAX as u64);
    proof {
        lemma_div_pos_is_pos(num as int, SAMPLE_MAX as int);
        lemma_div_is_ordered(
            num as int,
            (SAMPLE_MAX as int) * (MAX_Z_MICRO as int) + (HALF_SAMPLE as int),
            SAMPLE_MAX as int,
        );
        lemma_div_multiples_vanish_fancy(MAX_Z_MICRO as int, HALF_SAMPLE as int, SAMPLE_MAX as int);
    }
    q as i64
}

/// Decoding a sample and encoding the result gives the sample back:
/// the quantized grid of elevations round-trips exactly, so a field
/// whose every value lies on that grid is reproduced bit for bit.
pub proof fn lemma_sample_round_trip(s: int)
    requires
        0 <= s <= SAMPLE_MAX as int,
    ensures
        encode_sample_spec(decode_sample_spec(s)) == s,
{
    let d: int = MAX_Z_MICRO as int;
    let m: int = SAMPLE_MAX as int;
    let t: int = decode_sample_spec(s);
    lemma_fundamental_div_mod(s * d + (HALF_SAMPLE as int), m);
    lemma_mod_division_less_than_divisor(s * d + (HALF_SAMPLE as int), m);
    let r: int = (s * d + (HALF_SAMPLE as int)) % m;
    assert(m * t == s * d + (HALF_SAMPLE as int) - r);
    assert(0 <= t) by {
        lemma_div_pos_is_pos(s * d + (HALF_SAMPLE as int), m);
    }
    assert(t <= d) by {
        lemma_div_is_ordered(s * d + (HALF_SAMPLE as int), m * d + (HALF_SAMPLE as int), m);
        lemma_div_multiples_vanish_fancy(d, HALF_SAMPLE as int, m);
        assert(s * d <= m * d) by (nonlinear_arith)
            requires
                s <= m,
                d > 0,
        ;
    }
    assert(clampi(t, 0, d) == t);
    let x: int = (HALF_SAMPLE as int) - r + (HALF_DOMAIN as int);
    assert(t * m == m * t) by (nonlinear_arith);
    assert(t * m + (HALF_DOMAIN as int) == d * s + x);
    assert(0 <= x < d);
    lemma_div_multiples_vanish_fancy(s, x, d);
}

/// A field whose every sample lies on the quantized grid — each cell
/// equals the decoding of some raster sample — is reproduced exactly,
/// cell by cell, by encoding and then decoding.
pub proof fn lemma_quantized_field_round_trip(vals: Seq<i64>)
    requires
        forall|k: int|
            0 <= k < vals.len() ==> exists|s: int|
                0 <= s <= SAMPLE_MAX as int && #[trigger] vals[k] as int == decode_sample_spec(s),
    ensures
        forall|k: int|
            0 <= k < vals.len() ==> decode_sample_spec(
                encode_sample_spec(#[trigger] vals[k] as int),
            ) == vals[k] as int,
{
    assert forall|k: int| 0 <= k < vals.len() implies decode_sample_spec(
        encode_sample_spec(#[trigger] vals[k] as int),
    ) == vals[k] as int by {
        let s = choose|s: int|
            0 <= s <= SAMPLE_MAX as int && #[trigger] vals[k] as int == decode_sample_spec(s);
        lemma_sample_round_trip(s);
    }
}

/// The round-trip error of one in-domain elevation is at most one
/// quantization step.
pub proof fn lemma_quantization_error(t: int)
    requires
        0 <= t <= MAX_Z_MICRO as int,
    ensures
        0 <= encode_sample_spec(t) <= SAMPLE_MAX as int,
        decode_sample_spec(encode_sample_spec(t)) - t <= QUANT_STEP as int,
        t - decode_sample_spec(encode_sample_spec(t)) <= QUANT_STEP as int,
{
    let d: int = MAX_Z_MICRO as int;
    let m: int = SAMPLE_MAX as int;
    assert(clampi(t, 0, d) == t);
    let e: int = encode_sample_spec(t);
    lemma_fundamental_div_mod(t * m + (HALF_DOMAIN as int), d);
    lemma_mod_division_less_than_divisor(t * m + (HALF_DOMAIN as int), d);
    let r: int = (t * m + (HALF_DOMAIN as int)) % d;
    assert(d * e == t * m + (HALF_DOMAIN as int) - r);
    assert(0 <= e) by {
        lemma_div_pos_is_pos(t * m + (HALF_DOMAIN as int), d);
    }
    assert(e <= m) by {
        lemma_div_is_ordered(t * m + (HALF_DOMAIN as int), d * m + (HALF_DOMAIN as int), d);
        lemma_div_multiples_vanish_fancy(m, HALF_DOMAIN as int, d);
        assert(t * m <= d * m) by (nonlinear_arith)
            requires
                t <= d,
                m > 0,
        ;
    }
    let y: int = (HALF_DOMAIN as int) - r + (HALF_SAMPLE as int);
    assert(e * d == d * e) by (nonlinear_arith);
    assert(e * d + (HALF_SAMPLE as int) == m * t + y);
    lemma_hoist_over_denominator(y, t, m as nat);
    assert(decode_sample_spec(e) == t + y / m);
    assert(y <= 255_532_767int);
    assert(y / m <= 255_532_767int / m) by {
        lemma_div_is_ordered(y, 255_532_767int, m);
    }
    assert(-255_467_233int <= y);
    assert((-255_467_233int) / m <= y / m) by {
        lemma_div_is_ordered(-255_467_233int, y, m);
    }
}

/// The two raster bytes of one sample reassemble to the sample.
pub proof fn lemma_be16_bytes(e: int)
    requires
        0 <= e <= SAMPLE_MAX as int,
    ensures
        (e / 256) * 256 + e % 256 == e,
        0 <= e / 256 <= 255,
        0 <= e % 256 <= 255,
{
    lemma_fundamental_div_mod(e, 256);
    lemma_mod_division_less_than_divisor(e, 256);
    lemma_div_pos_is_pos(e, 256);
    lemma_div_is_ordered(e, SAMPLE_MAX as int, 256);
}

/// Quantize every sample of the field into a big-endian 16-bit raster
/// byte stream, row-major.
#[verifier::loop_isolation(false)]
pub fn encode_field(field: &HeightField) -> (bytes: Vec<u8>)
    requires
        field.wf(),
    ensures
        bytes@.len() == 2 * field.texels@.len(),
        forall|k: int|
            0 <= k < field.texels@.len() ==> #[trigger] be16_of(bytes@, k) == encode_sample_spec(
                field.texels@[k] as int,
            ),
{
    let n: usize = field.texels.len();
    let mut bytes: Vec<u8> = Vec::new();
    let mut k: usize = 0;
    while k < n
        invariant
            k <= n,
            bytes@.len() == 2 * k,
            forall|m: int|
                0 <= m < k ==> #[trigger] be16_of(bytes@, m) == encode_sample_spec(
                    field.texels@[m] as int,
                ),
        decreases n - k,
    {
        let s: u16 = encode_sample(field.texels[k]);
        proof {
            lemma_be16_bytes(s as int);
        }
        let hi: u8 = (s / 256) as u8;
        let lo: u8 = (s % 256) as u8;
        let ghost bytes_old: Seq<u8> = bytes@;
        bytes.push(hi);
        bytes.push(lo);
        proof {
            assert forall|m: int| 0 <= m < k + 1 implies #[trigger] be16_of(bytes@, m)
                == encode_sample_spec(field.texels@[m] as int) by {
                if m < k {
                    assert(be16_of(bytes_old, m) == encode_sample_spec(field.texels@[m] as int));
                    assert(bytes@[2 * m] == bytes_old[2 * m]);
                    assert(bytes@[2 * m + 1] == bytes_old[2 * m + 1]);
                    assert(be16_of(bytes@, m) == be16_of(bytes_old, m));
                } else {
                    assert(bytes@[2 * m] == hi);
                    assert(bytes@[2 * m + 1] == lo);
                    assert(hi as int == (s as int) / 256);
                    assert(lo as int == (s as int) % 256);
                    assert(be16_of(bytes@, m) == (hi as int) * 256 + (lo as int));
                    assert(be16_of(bytes@, m) == s as int);
                    assert(encode_sample_spec(field.texels@[m] as int) == s as int);
                }
            }
        }
        k = k + 1;
    }
    bytes
}

/// Which persistence request failed.
#[derive(PartialEq, Eq, Structural, Clone, Copy, Debug)]
pub enum PersistenceOp {
    Save,
    Load,
}

/// Why a persistence request failed.
#[derive(PartialEq, Eq, Structural, Clone, Copy, Debug)]
pub enum PersistenceCause {
    /// The raster's sample count differs from the target field's cell
    /// count.
    DimensionMismatch { expected: usize, actual: usize },
    /// The raster file could not be parsed as a 16-bit grayscale image.
    MalformedRaster,
    /// Reading or writing a file failed.
    Io,
}

/// A failed save or load: the operation and its cause. The height field
/// is never partially overwritten by a failed load.
#[derive(PartialEq, Eq, Structural, Clone, Copy, Debug)]
pub struct PersistenceError {
    pub op: PersistenceOp,
    pub cause: PersistenceCause,
}

/// Overwrite the whole field from a big-endian 16-bit raster byte
/// stream. Succeeds exactly when the stream holds one sample per cell;
/// on a count mismatch the field keeps every sample and the error names
/// both counts. On success the touched rectangle is the whole grid.
#[verifier::loop_isolation(false)]
pub fn decode_into(field: &mut HeightField, bytes: &Vec<u8>) -> (r: Result<Rect, PersistenceError>)
    requires
        old(field).wf(),
    ensures
        final(field).wf(),
        final(field).width == old(field).width,
        final(field).height == old(field).height,
        final(field).texels.len() == old(field).texels.len(),
        if bytes@.len() == 2 * old(field).texels@.len() {
            &&& r == Ok::<Rect, PersistenceError>(
                Rect {
                    x: 0u32,
                    y: 0u32,
                    w: old(field).width as u32,
                    h: old(field).height as u32,
                },
            )
            &&& forall|k: int|
                0 <= k < final(field).texels@.len() ==> #[trigger] final(field).texels@[k] as int
                    == decode_sample_spec(be16_of(bytes@, k))
        } else {
            &&& r == Err::<Rect, PersistenceError>(
                PersistenceError {
                    op: PersistenceOp::Load,
                    cause: PersistenceCause::DimensionMismatch {
                        expected: old(field).texels.len(),
                        actual: (bytes@.len() / 2) as usize,
                    },
                },
            )
            &&& final(field).texels@ == old(field).texels@
        },
{
    let n: usize = field.texels.len();
    proof {
        lemma_grid_cells_bounded(field.width as int, field.height as int);
    }
    if bytes.len() != 2 * n || bytes.len() % 2 != 0 {
        return Err(
            PersistenceError {
                op: PersistenceOp::Load,
                cause: PersistenceCause::DimensionMismatch { expected: n, actual: bytes.len() / 2 },
            },
        );
    }
    let mut k: usize = 0;
    while k < n
        invariant
            k <= n,
            field.wf(),
            field.width == old(field).width,
            field.height == old(field).height,
            field.texels.len() == n,
            forall|m: int|
                0 <= m < k ==> #[trigger] field.texels@[m] as int == decode_sample_spec(
                    be16_of(bytes@, m),
                ),
            forall|m: int| k <= m < n ==> #[trigger] field.texels@[m] == old(field).texels@[m],
        decreases n - k,
    {
        let hi: u8 = bytes[2 * k];
        let lo: u8 = bytes[2 * k + 1];
        let sample: u16 = (hi as u16) * 256 + (lo as u16);
        let t: i64 = decode_sample(sample);
        store_sample(field, k, t);
        k = k + 1;
    }
    Ok(Rect { x: 0, y: 0, w: field.width as u32, h: field.height as u32 })
}

/// Overwrite one sample of the field by its flat index.
fn store_sample(field: &mut HeightField, k: usize, v: i64)
    requires
        old(field).wf(),
        k < old(field).texels.len(),
        elev_ok(v as int),
    ensures
        final(field).wf(),
        final(field).width == old(field).width,
        final(field).height == old(field).height,
        final(field).texels@ == old(field).texels@.update(k as int, v),
{
    field.texels.set(k, v);
}

} // verus!
