//! Affine intensity remapping: every sample `v` becomes
//! `round(a*v + b)` clamped into the depth's representable range, where the
//! coefficients are exact rationals `a = a_num/den`, `b = b_num/den` over a
//! shared positive denominator.

use vstd::prelude::*;

use crate::image_handler::{Image, ImageError, Pixels};

verus! {

/// `n/d` rounded to the nearest integer, ties away from zero.
pub open spec fn round_div(n: int, d: int) -> int
    recommends
        d >= 1,
{
    if n >= 0 {
        (2 * n + d) / (2 * d)
    } else {
        -((2 * (-n) + d) / (2 * d))
    }
}

/// The affine image of one sample value, before clamping:
/// `round((a_num*v + b_num) / den)`.
pub open spec fn affine_sample(v: int, a_num: int, b_num: int, den: int) -> int
    recommends
        den >= 1,
{
    round_div(a_num * v + b_num, den)
}

/// The affine image of one sample value, clamped into `[0, max_value]`.
pub open spec fn affine_clamped(v: int, a_num: int, b_num: int, den: int, max_value: int) -> int
    recommends
        den >= 1,
{
    let t = affine_sample(v, a_num, b_num, den);
    if t < 0 {
        0
    } else if t > max_value {
        max_value
    } else {
        t
    }
}

/// A whole 8-bit sample pool remapped.
pub open spec fn linear_seq8(s: Seq<u8>, a_num: int, b_num: int, den: int) -> Seq<u8> {
    s.map_values(|v: u8| affine_clamped(v as int, a_num, b_num, den, 255) as u8)
}

/// A whole 16-bit sample pool remapped.
pub open spec fn linear_seq16(s: Seq<u16>, a_num: int, b_num: int, den: int) -> Seq<u16> {
    s.map_values(|v: u16| affine_clamped(v as int, a_num, b_num, den, 65535) as u16)
}

/// The remapped sample never leaves the representable range: extreme
/// coefficients saturate at the bounds instead of wrapping.
pub proof fn lemma_affine_saturates(v: int, a_num: int, b_num: int, den: int, max_value: int)
    requires
        den >= 1,
        max_value >= 0,
    ensures
        0 <= affine_clamped(v, a_num, b_num, den, max_value) <= max_value,
{
}

/// With `a = 1` and `b = 0` the remapping is the identity on every
/// representable sample.
pub proof fn lemma_affine_identity(v: int, max_value: int)
    requires
        0 <= v <= max_value,
    ensures
        affine_clamped(v, 1, 0, 1, max_value) == v,
{
    assert((2 * v + 1) / 2 == v);
}

/// With `a = 1` and `b = 0` a whole 8-bit pool is unchanged.
pub proof fn lemma_linear_identity_seq8(s: Seq<u8>)
    ensures
        linear_seq8(s, 1, 0, 1) == s,
{
    assert forall|i: int| 0 <= i < s.len() implies linear_seq8(s, 1, 0, 1)[i] == s[i] by {
        lemma_affine_identity(s[i] as int, 255);
    }
    assert(linear_seq8(s, 1, 0, 1) =~= s);
}

/// With `a = 1` and `b = 0` a whole 16-bit pool is unchanged.
pub proof fn lemma_linear_identity_seq16(s: Seq<u16>)
    ensures
        linear_seq16(s, 1, 0, 1) == s,
{
    assert forall|i: int| 0 <= i < s.len() implies linear_seq16(s, 1, 0, 1)[i] == s[i] by {
        lemma_affine_identity(s[i] as int, 65535);
    }
    assert(linear_seq16(s, 1, 0, 1) =~= s);
}

/// Remaps one sample: the exact rounded rational image, clamped.
fn map_sample(v: u16, a_num: i64, b_num: i64, den: i64, max_value: u16) -> (r: u16)
    requires
        den >= 1,
    ensures
        r as int == affine_clamped(v as int, a_num as int, b_num as int, den as int, max_value as int),
        r <= max_value,
{
    proof {
        assert(-0x8000_0000_0000_0000i128 * 0x1_0000i128 <= (a_num as i128) * (v as i128)
            <= 0x8000_0000_0000_0000i128 * 0x1_0000i128) by (nonlinear_arith)
            requires
                -0x8000_0000_0000_0000i128 <= a_num as i128 <= 0x7FFF_FFFF_FFFF_FFFFi128,
                0 <= v as i128 <= 0xFFFFi128,
        ;
    }
    let t: i128 = (a_num as i128) * (v as i128) + (b_num as i128);
    if t < 0 {
        proof {
            let n = a_num as int * v as int + b_num as int;
            let d = den as int;
            assert((2 * (-n) + d) / (2 * d) >= 0) by (nonlinear_arith)
                requires
                    n < 0,
                    d >= 1,
            ;
        }
        0
    } else {
        let tu: u128 = t as u128;
        let du: u128 = den as u128;
        let q: u128 = (2 * tu + du) / (2 * du);
        proof {
            let n = a_num as int * v as int + b_num as int;
            let d = den as int;
            assert(q == (2 * n + d) / (2 * d));
        }
        if q > max_value as u128 {
            max_value
        } else {
            q as u16
        }
    }
}

/// Applies the affine remapping `v := round((a_num*v + b_num)/den)`, clamped
/// to the buffer's depth, to every sample in place. Total over all valid
/// buffers: there are no error paths.
pub fn apply_linear_function(img: &mut Image, a_num: i64, b_num: i64, den: i64) -> (r: Result<
    (),
    ImageError,
>)
    requires
        den >= 1,
    ensures
        r is Ok,
        final(img).same_shape(old(img)),
        match (final(img).pixels, old(img).pixels) {
            (Pixels::U8(d), Pixels::U8(od)) => d@ == linear_seq8(
                od@,
                a_num as int,
                b_num as int,
                den as int,
            ),
            (Pixels::U16(d), Pixels::U16(od)) => d@ == linear_seq16(
                od@,
                a_num as int,
                b_num as int,
                den as int,
            ),
            _ => false,
        },
{
    match &img.pixels {
        Pixels::U8(data) => {
            let ghost od = data@;
            let mut out: Vec<u8> = Vec::new();
            let mut i: usize = 0;
            while i < data.len()
                invariant
                    i <= data.len(),
                    data@ == od,
                    den >= 1,
                    out@.len() == i,
                    forall|j: int|
                        0 <= j < i ==> out@[j] == affine_clamped(
                            od[j] as int,
                            a_num as int,
                            b_num as int,
                            den as int,
                            255,
                        ) as u8,
                decreases data.len() - i,
            {
                let nv = map_sample(data[i] as u16, a_num, b_num, den, 255);
                out.push(nv as u8);
                i = i + 1;
            }
            proof {
                assert(out@ =~= linear_seq8(od, a_num as int, b_num as int, den as int));
            }
            img.pixels = Pixels::U8(out);
            Ok(())
        },
        Pixels::U16(data) => {
            let ghost od = data@;
            let mut out: Vec<u16> = Vec::new();
            let mut i: usize = 0;
            while i < data.len()
                invariant
                    i <= data.len(),
                    data@ == od,
                    den >= 1,
                    out@.len() == i,
                    forall|j: int|
                        0 <= j < i ==> out@[j] == affine_clamped(
                            od[j] as int,
                            a_num as int,
                            b_num as int,
                            den as int,
                            65535,
                        ) as u16,
                decreases data.len() - i,
            {
                let nv = map_sample(data[i], a_num, b_num, den, 65535);
                out.push(nv);
                i = i + 1;
            }
            proof {
                assert(out@ =~= linear_seq16(od, a_num as int, b_num as int, den as int));
            }
            img.pixels = Pixels::U16(out);
            Ok(())
        },
    }
}

} // verus!
