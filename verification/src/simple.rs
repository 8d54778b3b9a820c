//! The single-pass lighter/darker compositor: keeps, per pixel, the frame
//! with the extreme weighted channel sum, blended in under the fade curve.

use vstd::prelude::*;

use crate::chrono::{spec_px, WEIGHT_LIMIT};
use crate::color::spec_blend_channel_u8;
use crate::fixed::{SCALE, HALF_SCALE};
use crate::options::Fade;

verus! {

/// The weighted sum of one pixel's channels, over the first `ch` channels.
pub open spec fn spec_weighted_upto(
    data: Seq<u8>,
    channels: int,
    i: int,
    weights: Seq<i64>,
    ch: int,
) -> int
    decreases ch,
{
    if ch <= 0 {
        0
    } else {
        spec_weighted_upto(data, channels, i, weights, ch - 1) + weights[ch - 1] * spec_px(
            data,
            channels,
            i,
            ch - 1,
        )
    }
}

/// The weighted sum of one pixel's channels.
pub open spec fn spec_weighted_value(
    data: Seq<u8>,
    channels: int,
    i: int,
    weights: Seq<i64>,
) -> int {
    spec_weighted_upto(data, channels, i, weights, channels)
}

/// Composites frames by the extreme weighted pixel value.
pub struct SimpleProcessor {
    pub weights: [i64; 4],
    pub fade: Fade,
    pub darker: bool,
}

impl SimpleProcessor {
    /// Structural invariant: a well-formed unit fade and bounded weights.
    pub open spec fn wf(self) -> bool {
        &&& self.fade.wf()
        &&& self.fade.unit()
        &&& forall|ch: int|
            0 <= ch < 4 ==> -WEIGHT_LIMIT <= #[trigger] self.weights@[ch] <= WEIGHT_LIMIT
    }

    /// Creates a new compositor.
    pub fn new(weights: [i64; 4], fade: Fade, darker: bool) -> (r: Self)
        requires
            fade.wf(),
            fade.unit(),
            forall|ch: int| 0 <= ch < 4 ==> -WEIGHT_LIMIT <= #[trigger] weights@[ch] <= WEIGHT_LIMIT,
        ensures
            r.wf(),
            r.weights == weights,
            r.fade == fade,
            r.darker == darker,
    {
        SimpleProcessor { weights, fade, darker }
    }

    /// The fade factor for one frame of the stack.
    pub fn fade(&self, frame: i32, total: i32, offset: i32) -> (r: i64)
        requires
            self.fade.wf(),
            -0x2000_0000 <= frame <= 0x2000_0000,
            -0x2000_0000 <= total <= 0x2000_0000,
            -0x2000_0000 <= offset <= 0x2000_0000,
        ensures
            r == crate::chrono::spec_fade_for(
                self.fade,
                frame as int,
                total as int,
                offset as int,
            ),
    {
        if self.fade.absolute() {
            self.fade.get(offset + frame)
        } else {
            self.fade.get(total - frame - 1)
        }
    }

    /// The initial per-pixel extreme values: the weakest possible value, so
    /// that the first frame always wins.
    pub fn init_extremes(&self, pixels: usize) -> (r: Vec<i64>)
        ensures
            r@.len() == pixels,
            forall|p: int|
                0 <= p < pixels ==> #[trigger] r@[p] == if self.darker {
                    i64::MAX
                } else {
                    i64::MIN
                },
    {
        let v = if self.darker {
            i64::MAX
        } else {
            i64::MIN
        };
        let mut out: Vec<i64> = Vec::new();
        let mut i: usize = 0;
        while i < pixels
            invariant
                i <= pixels,
                out@.len() == i,
                forall|p: int| 0 <= p < i ==> #[trigger] out@[p] == v,
            decreases pixels - i,
        {
            out.push(v);
            i = i + 1;
        }
        out
    }

    /// Folds one frame into the output: wherever the frame's weighted pixel
    /// value beats the running extreme (lower for darker, higher for
    /// lighter), the extreme is updated and the frame's pixel is blended
    /// into the output by the frame's fade factor.
    pub fn process_frame(
        &self,
        buffer: &mut Vec<u8>,
        extremes: &mut Vec<i64>,
        frame: &Vec<u8>,
        channels: usize,
        sample_idx: usize,
        total: usize,
        frame_offset: i32,
    )
        requires
            self.wf(),
            1 <= channels <= 4,
            old(buffer)@.len() == frame@.len(),
            old(extremes)@.len() * channels == frame@.len(),
            frame@.len() <= usize::MAX - 4,
            sample_idx <= total <= 0x2000_0000,
            -0x2000_0000 <= frame_offset <= 0x2000_0000,
        ensures
            final(buffer)@.len() == old(buffer)@.len(),
            final(extremes)@.len() == old(extremes)@.len(),
            ({
                let fade_v = crate::chrono::spec_fade_for(
                    self.fade,
                    sample_idx as int,
                    total as int,
                    frame_offset as int,
                );
                forall|p: int| #![trigger old(extremes)@[p]]
                    0 <= p < old(extremes)@.len() ==> {
                        let v = spec_weighted_value(frame@, channels as int, p, self.weights@);
                        let beat = if self.darker {
                            v < old(extremes)@[p]
                        } else {
                            v > old(extremes)@[p]
                        };
                        if beat {
                            &&& #[trigger] final(extremes)@[p] == v
                            &&& forall|ch: int|
                                0 <= ch < channels ==> #[trigger] final(buffer)@[p * channels + ch]
                                    == spec_blend_channel_u8(
                                    old(buffer)@[p * channels + ch] as int,
                                    frame@[p * channels + ch] as int,
                                    fade_v,
                                )
                        } else {
                            &&& #[trigger] final(extremes)@[p] == old(extremes)@[p]
                            &&& forall|ch: int|
                                0 <= ch < channels ==> #[trigger] final(buffer)@[p * channels + ch]
                                    == old(buffer)@[p * channels + ch]
                        }
                    }
            }),
    {
        let fade_v = self.fade(sample_idx as i32, total as i32, frame_offset);
        proof {
            crate::options::lemma_fade_unit_bounds(
                self.fade,
                if self.fade.absolute {
                    frame_offset as int + sample_idx as int
                } else {
                    total as int - sample_idx as int - 1
                },
            );
        }
        let pixels = extremes.len();
        let mut p: usize = 0;
        while p < pixels
            invariant
                self.wf(),
                1 <= channels <= 4,
                buffer@.len() == frame@.len(),
                extremes@.len() == pixels,
                pixels * channels == frame@.len(),
                frame@.len() <= usize::MAX - 4,
                0 <= fade_v <= SCALE,
                fade_v == crate::chrono::spec_fade_for(
                    self.fade,
                    sample_idx as int,
                    total as int,
                    frame_offset as int,
                ),
                p <= pixels,
                forall|q: int|
                    p <= q < pixels ==> #[trigger] extremes@[q] == old(extremes)@[q],
                forall|k: int|
                    p as int * channels <= k < frame@.len() ==> #[trigger] buffer@[k] == old(
                        buffer,
                    )@[k],
                forall|q: int| #![trigger old(extremes)@[q]]
                    0 <= q < p ==> {
                        let v = spec_weighted_value(frame@, channels as int, q, self.weights@);
                        let beat = if self.darker {
                            v < old(extremes)@[q]
                        } else {
                            v > old(extremes)@[q]
                        };
                        if beat {
                            &&& #[trigger] extremes@[q] == v
                            &&& forall|ch: int|
                                0 <= ch < channels ==> #[trigger] buffer@[q * channels + ch]
                                    == spec_blend_channel_u8(
                                    old(buffer)@[q * channels + ch] as int,
                                    frame@[q * channels + ch] as int,
                                    fade_v as int,
                                )
                        } else {
                            &&& #[trigger] extremes@[q] == old(extremes)@[q]
                            &&& forall|ch: int|
                                0 <= ch < channels ==> #[trigger] buffer@[q * channels + ch] == old(
                                    buffer,
                                )@[q * channels + ch]
                        }
                    },
            decreases pixels - p,
        {
            proof {
                assert(p as int * (channels as int) + channels as int <= pixels as int * (
                channels as int)) by (nonlinear_arith)
                    requires
                        p as int + 1 <= pixels as int,
                        0 < channels;
                assert((p as int + 1) * (channels as int) == p as int * (channels as int)
                    + channels as int) by (nonlinear_arith);
            }
            let ghost buf0 = buffer@;
            let mut value: i64 = 0;
            let mut ch: usize = 0;
            while ch < channels
                invariant
                    1 <= channels <= 4,
                    p as int * channels + channels <= frame@.len(),
                    frame@.len() <= usize::MAX - 4,
                    forall|c: int|
                        0 <= c < 4 ==> -WEIGHT_LIMIT <= #[trigger] self.weights@[c] <= WEIGHT_LIMIT,
                    ch <= channels,
                    value == spec_weighted_upto(
                        frame@,
                        channels as int,
                        p as int,
                        self.weights@,
                        ch as int,
                    ),
                    -(ch as i64) * 40_800_000 <= value <= (ch as i64) * 40_800_000,
                decreases channels - ch,
            {
                let w = self.weights[ch];
                let px = frame[p * channels + ch] as i64;
                proof {
                    assert(-40_800_000 <= w * px <= 40_800_000) by (nonlinear_arith)
                        requires
                            -160_000 <= w <= 160_000,
                            0 <= px <= 255;
                }
                value = value + w * px;
                ch = ch + 1;
            }
            let prev = extremes[p];
            let beat = if self.darker {
                value < prev
            } else {
                value > prev
            };
            if beat {
                extremes[p] = value;
                let mut ch2: usize = 0;
                while ch2 < channels
                    invariant
                        1 <= channels <= 4,
                        buffer@.len() == frame@.len(),
                        buf0.len() == frame@.len(),
                        p as int * channels + channels <= frame@.len(),
                        frame@.len() <= usize::MAX - 4,
                        0 <= fade_v <= SCALE,
                        ch2 <= channels,
                        forall|k: int|
                            0 <= k < p as int * channels ==> #[trigger] buffer@[k] == buf0[k],
                        forall|k: int|
                            p as int * channels + ch2 <= k < frame@.len() ==> #[trigger] buffer@[k]
                                == buf0[k],
                        forall|c: int|
                            0 <= c < ch2 ==> #[trigger] buffer@[p as int * channels + c]
                                == spec_blend_channel_u8(
                                buf0[p as int * channels + c] as int,
                                frame@[p as int * channels + c] as int,
                                fade_v as int,
                            ),
                    decreases channels - ch2,
                {
                    let idx = p * channels + ch2;
                    let aa = buffer[idx] as i64;
                    let bb = frame[idx] as i64;
                    let nb: i64;
                    if fade_v <= 0 {
                        nb = aa;
                    } else if fade_v >= SCALE {
                        nb = bb;
                    } else {
                        proof {
                            assert(0 <= aa * 10000 + (bb - aa) * fade_v <= 2_550_000)
                                by (nonlinear_arith)
                                requires
                                    0 <= aa <= 255,
                                    0 <= bb <= 255,
                                    0 < fade_v < 10000;
                        }
                        nb = (aa * SCALE + (bb - aa) * fade_v + HALF_SCALE) / SCALE;
                    }
                    buffer[idx] = nb as u8;
                    ch2 = ch2 + 1;
                }
            }
            proof {
                let cn = channels as int;
                assert forall|q: int, c: int|
                    0 <= q < p as int && 0 <= c < cn implies #[trigger] (q * cn + c) < p as int
                    * cn by {
                    assert((q + 1) * cn <= p as int * cn) by (nonlinear_arith)
                        requires
                            q + 1 <= p as int,
                            0 < cn;
                    assert((q + 1) * cn == q * cn + cn) by (nonlinear_arith);
                }
                assert((p as int + 1) * cn == p as int * cn + cn) by (nonlinear_arith);
                assert forall|q: int| #![trigger old(extremes)@[q]]
                    0 <= q < p as int + 1 implies ({
                        let v = spec_weighted_value(frame@, cn, q, self.weights@);
                        let beat = if self.darker {
                            v < old(extremes)@[q]
                        } else {
                            v > old(extremes)@[q]
                        };
                        if beat {
                            &&& extremes@[q] == v
                            &&& forall|c: int|
                                0 <= c < cn ==> #[trigger] buffer@[q * cn + c]
                                    == spec_blend_channel_u8(
                                    old(buffer)@[q * cn + c] as int,
                                    frame@[q * cn + c] as int,
                                    fade_v as int,
                                )
                        } else {
                            &&& extremes@[q] == old(extremes)@[q]
                            &&& forall|c: int|
                                0 <= c < cn ==> #[trigger] buffer@[q * cn + c] == old(buffer)@[q
                                    * cn + c]
                        }
                    }) by {
                    if q < p as int {
                        assert forall|c: int|
                            0 <= c < cn implies #[trigger] buffer@[q * cn + c] == buf0[q * cn
                            + c] by {
                            assert(q * cn + c < p as int * cn);
                        }
                    } else {
                        assert(q == p as int);
                        assert forall|c: int|
                            0 <= c < cn implies #[trigger] buf0[p as int * cn + c] == old(
                            buffer,
                        )@[p as int * cn + c] by {
                            assert(p as int * cn <= p as int * cn + c);
                        }
                        assert(spec_weighted_value(frame@, cn, p as int, self.weights@) == value);
                        assert(prev == old(extremes)@[p as int]);
                        if beat {
                            assert(extremes@[p as int] == value);
                            assert forall|c: int|
                                0 <= c < cn implies #[trigger] buffer@[p as int * cn + c]
                                    == spec_blend_channel_u8(
                                    old(buffer)@[p as int * cn + c] as int,
                                    frame@[p as int * cn + c] as int,
                                    fade_v as int,
                                ) by {
                                assert(buffer@[p as int * cn + c] == spec_blend_channel_u8(
                                    buf0[p as int * cn + c] as int,
                                    frame@[p as int * cn + c] as int,
                                    fade_v as int,
                                ));
                            }
                        } else {
                            assert(extremes@[p as int] == old(extremes)@[p as int]);
                            assert(buffer@ == buf0);
                        }
                    }
                }
            }
            p = p + 1;
        }
    }
}

} // verus!
