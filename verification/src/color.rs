//! Helper functions for blending colors, in fixed-point arithmetic.

use vstd::prelude::*;

use crate::fixed::{SCALE, HALF_SCALE, spec_div_trunc, div_trunc, lemma_div_trunc_scaled};

verus! {

/// One 8-bit channel of `b` blended into `a` by the fixed-point factor
/// `blend`, rounded to the nearest integer: `a + (b - a) * blend`.
pub open spec fn spec_blend_channel_u8(a: int, b: int, blend: int) -> int {
    if blend <= 0 {
        a
    } else if blend >= SCALE {
        b
    } else {
        (a * (SCALE as int) + (b - a) * blend + (HALF_SCALE as int)) / (SCALE as int)
    }
}

/// One fixed-point channel of `b` blended into the fixed-point channel `a`
/// by the factor `blend`: `a + (b - a) * blend`, truncated.
pub open spec fn spec_blend_channel_fixed(a: int, b: int, blend: int) -> int {
    if blend <= 0 {
        a
    } else if blend >= SCALE {
        b
    } else {
        a + spec_div_trunc((b - a) * blend, SCALE as int)
    }
}

/// Blends color `b` into the first `b.len()` channels of color `a` with the
/// fixed-point factor `blend`; channels of `a` beyond `b` stay unchanged.
pub fn blend_into_u8(a: &mut Vec<u8>, b: &[u8], blend: i64)
    requires
        b@.len() <= old(a)@.len(),
    ensures
        final(a)@.len() == old(a)@.len(),
        forall|i: int|
            0 <= i < b@.len() ==> final(a)@[i] == spec_blend_channel_u8(
                old(a)@[i] as int,
                b@[i] as int,
                blend as int,
            ),
        forall|i: int| b@.len() <= i < final(a)@.len() ==> final(a)@[i] == old(a)@[i],
{
    if blend <= 0 {
        return ;
    }
    let n = b.len();
    let mut i: usize = 0;
    if blend >= SCALE {
        while i < n
            invariant
                n == b@.len(),
                n <= a@.len(),
                a@.len() == old(a)@.len(),
                blend >= SCALE,
                i <= n,
                forall|k: int| i <= k < a@.len() ==> a@[k] == old(a)@[k],
                forall|k: int|
                    0 <= k < i ==> a@[k] == spec_blend_channel_u8(
                        old(a)@[k] as int,
                        b@[k] as int,
                        blend as int,
                    ),
            decreases n - i,
        {
            a[i] = b[i];
            i = i + 1;
        }
    } else {
        while i < n
            invariant
                n == b@.len(),
                n <= a@.len(),
                a@.len() == old(a)@.len(),
                0 < blend < SCALE,
                i <= n,
                forall|k: int| i <= k < a@.len() ==> a@[k] == old(a)@[k],
                forall|k: int|
                    0 <= k < i ==> a@[k] == spec_blend_channel_u8(
                        old(a)@[k] as int,
                        b@[k] as int,
                        blend as int,
                    ),
            decreases n - i,
        {
            let aa = a[i] as i64;
            let bb = b[i] as i64;
            proof {
                assert(0 <= aa * 10000 + (bb - aa) * blend <= 2_550_000) by (nonlinear_arith)
                    requires
                        0 <= aa <= 255,
                        0 <= bb <= 255,
                        0 < blend < 10000;
            }
            let v = (aa * SCALE + (bb - aa) * blend + HALF_SCALE) / SCALE;
            a[i] = v as u8;
            i = i + 1;
        }
    }
}

/// Blends color `b` into the first `b.len()` channels of the fixed-point
/// color `a` (channels scaled by [`SCALE`]) with the fixed-point factor
/// `blend`; channels of `a` beyond `b` stay unchanged.
pub fn blend_into_fixed_u8(a: &mut Vec<i64>, b: &[u8], blend: i64)
    requires
        b@.len() <= old(a)@.len(),
        forall|i: int| 0 <= i < old(a)@.len() ==> 0 <= #[trigger] old(a)@[i] <= 255 * SCALE,
    ensures
        final(a)@.len() == old(a)@.len(),
        forall|i: int|
            0 <= i < b@.len() ==> final(a)@[i] == spec_blend_channel_fixed(
                old(a)@[i] as int,
                b@[i] as int * SCALE,
                blend as int,
            ),
        forall|i: int| b@.len() <= i < final(a)@.len() ==> final(a)@[i] == old(a)@[i],
        forall|i: int| 0 <= i < final(a)@.len() ==> 0 <= #[trigger] final(a)@[i] <= 255 * SCALE,
{
    if blend <= 0 {
        return ;
    }
    let n = b.len();
    let mut i: usize = 0;
    while i < n
        invariant
            n == b@.len(),
            n <= a@.len(),
            a@.len() == old(a)@.len(),
            0 < blend,
            i <= n,
            forall|k: int| i <= k < a@.len() ==> a@[k] == old(a)@[k],
            forall|k: int| 0 <= k < a@.len() ==> 0 <= #[trigger] old(a)@[k] <= 255 * SCALE,
            forall|k: int|
                0 <= k < i ==> #[trigger] a@[k] == spec_blend_channel_fixed(
                    old(a)@[k] as int,
                    b@[k] as int * SCALE,
                    blend as int,
                ),
            forall|k: int| 0 <= k < i ==> 0 <= #[trigger] a@[k] <= 255 * SCALE,
        decreases n - i,
    {
        let bb = (b[i] as i64) * SCALE;
        if blend >= SCALE {
            a[i] = bb;
        } else {
            let aa = a[i];
            proof {
                assert(-25_500_000_000i64 as int <= (bb - aa) * blend <= 25_500_000_000i64 as int)
                    by (nonlinear_arith)
                    requires
                        -2_550_000 <= bb - aa <= 2_550_000,
                        0 < blend < 10000;
                lemma_div_trunc_scaled((bb - aa) as int, blend as int, SCALE as int);
            }
            let q = div_trunc((bb - aa) * blend, SCALE);
            a[i] = aa + q;
        }
        i = i + 1;
    }
}

} // verus!
