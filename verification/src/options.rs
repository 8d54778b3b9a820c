//! Configuration value types for the compositing engine: selection modes,
//! outlier thresholds and temporal fading.

use vstd::prelude::*;
use vstd::string::StrSliceExecFns;

use crate::fixed::{SCALE, spec_div_trunc, div_trunc};

verus! {

/// Pixel selection mode.
#[derive(Debug, Clone, Copy, PartialEq, Eq, Structural)]
pub enum SelectionMode {
    /// Selects by outlier analysis (multi-dimensional z-score).
    Outlier,
    /// Selects the lightest/brightest pixel (sum of red, green and blue).
    Lighter,
    /// Selects the darkest pixel (sum of red, green and blue).
    Darker,
}

/// Extrapolation mode of a fade curve.
#[derive(Debug, Clone, Copy, PartialEq, Eq, Structural)]
pub enum FadeMode {
    Repeat,
    Clamp,
}

/// Selection mode if multiple outliers are found.
#[derive(Debug, Clone, Copy, PartialEq, Eq, Structural)]
pub enum OutlierSelectionMode {
    /// Use the first outlier.
    First,
    /// Use the last outlier.
    Last,
    /// Use the most extreme outlier.
    Extreme,
    /// Use the most average of all outliers.
    Average,
    /// Progressively blend all outliers into the background, forward.
    AllForward,
    /// Progressively blend all outliers into the background, backward.
    AllBackward,
}

/// Background pixel selection mode, i.e. where no outliers are found.
#[derive(Debug, Clone, Copy, PartialEq, Eq, Structural)]
pub enum BackgroundMode {
    /// Use the pixel from the first image.
    First,
    /// Use the pixel from a randomly selected image.
    Random,
    /// Use the average of the pixel from all images.
    Average,
    /// Use the median of the pixel from all images.
    Median,
}

/// Compares two strings character by character.
pub fn str_eq(a: &str, b: &str) -> (r: bool)
    ensures
        r <==> a@ == b@,
{
    let la = a.unicode_len();
    let lb = b.unicode_len();
    if la != lb {
        proof {
            assert(a@ != b@);
        }
        return false;
    }
    let mut i: usize = 0;
    while i < la
        invariant
            la == a@.len(),
            la == b@.len(),
            i <= la,
            forall|k: int| 0 <= k < i ==> a@[k] == b@[k],
        decreases la - i,
    {
        if a.get_char(i) != b.get_char(i) {
            proof {
                assert(a@[i as int] != b@[i as int]);
            }
            return false;
        }
        i = i + 1;
    }
    proof {
        assert(a@ =~= b@);
    }
    true
}

impl SelectionMode {
    /// Parses a pixel selection mode name.
    pub fn from_str(s: &str) -> (r: Result<SelectionMode, crate::ParseEnumError>)
        ensures
            s@ == "lighter"@ ==> r == Ok::<SelectionMode, crate::ParseEnumError>(
                SelectionMode::Lighter,
            ),
            s@ == "darker"@ ==> r == Ok::<SelectionMode, crate::ParseEnumError>(
                SelectionMode::Darker,
            ),
            s@ == "outlier"@ ==> r == Ok::<SelectionMode, crate::ParseEnumError>(
                SelectionMode::Outlier,
            ),
            s@ != "lighter"@ && s@ != "darker"@ && s@ != "outlier"@ ==> r is Err,
    {
        proof {
            reveal_strlit("lighter");
            reveal_strlit("darker");
            reveal_strlit("outlier");
            assert("lighter"@.len() == 7 && "darker"@.len() == 6 && "outlier"@.len() == 7);
            assert("lighter"@[0] == 'l' && "outlier"@[0] == 'o');
            assert("lighter"@ != "darker"@ && "darker"@ != "outlier"@ && "lighter"@
                != "outlier"@);
        }
        if str_eq(s, "lighter") {
            Ok(SelectionMode::Lighter)
        } else if str_eq(s, "darker") {
            Ok(SelectionMode::Darker)
        } else if str_eq(s, "outlier") {
            Ok(SelectionMode::Outlier)
        } else {
            Err(
                crate::ParseEnumError(
                    "Not a pixel selection mode. Must be one of (lighter|darker|outlier)".to_owned(),
                ),
            )
        }
    }
}

impl FadeMode {
    /// Parses a fade mode name.
    pub fn from_str(s: &str) -> (r: Result<FadeMode, crate::ParseEnumError>)
        ensures
            s@ == "repeat"@ ==> r == Ok::<FadeMode, crate::ParseEnumError>(FadeMode::Repeat),
            s@ == "clamp"@ ==> r == Ok::<FadeMode, crate::ParseEnumError>(FadeMode::Clamp),
            s@ != "repeat"@ && s@ != "clamp"@ ==> r is Err,
    {
        proof {
            reveal_strlit("repeat");
            reveal_strlit("clamp");
            assert("repeat"@.len() == 6 && "clamp"@.len() == 5);
            assert("repeat"@ != "clamp"@);
        }
        if str_eq(s, "repeat") {
            Ok(FadeMode::Repeat)
        } else if str_eq(s, "clamp") {
            Ok(FadeMode::Clamp)
        } else {
            Err(crate::ParseEnumError("Not a fade mode. Must be one of (repeat|clamp)".to_owned()))
        }
    }
}

impl OutlierSelectionMode {
    /// Parses an outlier selection mode name.
    pub fn from_str(s: &str) -> (r: Result<OutlierSelectionMode, crate::ParseEnumError>)
        ensures
            s@ == "first"@ ==> r == Ok::<OutlierSelectionMode, crate::ParseEnumError>(
                OutlierSelectionMode::First,
            ),
            s@ == "last"@ ==> r == Ok::<OutlierSelectionMode, crate::ParseEnumError>(
                OutlierSelectionMode::Last,
            ),
            s@ == "extreme"@ ==> r == Ok::<OutlierSelectionMode, crate::ParseEnumError>(
                OutlierSelectionMode::Extreme,
            ),
            s@ == "average"@ ==> r == Ok::<OutlierSelectionMode, crate::ParseEnumError>(
                OutlierSelectionMode::Average,
            ),
            s@ == "forward"@ ==> r == Ok::<OutlierSelectionMode, crate::ParseEnumError>(
                OutlierSelectionMode::AllForward,
            ),
            s@ == "backward"@ ==> r == Ok::<OutlierSelectionMode, crate::ParseEnumError>(
                OutlierSelectionMode::AllBackward,
            ),
            s@ != "first"@ && s@ != "last"@ && s@ != "extreme"@ && s@ != "average"@ && s@
                != "forward"@ && s@ != "backward"@ ==> r is Err,
    {
        proof {
            reveal_strlit("first");
            reveal_strlit("last");
            reveal_strlit("extreme");
            reveal_strlit("average");
            reveal_strlit("forward");
            reveal_strlit("backward");
            assert("first"@.len() == 5 && "last"@.len() == 4 && "extreme"@.len() == 7
                && "average"@.len() == 7 && "forward"@.len() == 7 && "backward"@.len() == 8);
            assert("extreme"@[0] == 'e' && "average"@[0] == 'a' && "forward"@[0] == 'f');
            assert("first"@ != "last"@ && "first"@ != "extreme"@ && "first"@ != "average"@
                && "first"@ != "forward"@ && "first"@ != "backward"@);
            assert("last"@ != "extreme"@ && "last"@ != "average"@ && "last"@ != "forward"@
                && "last"@ != "backward"@);
            assert("extreme"@ != "average"@ && "extreme"@ != "forward"@ && "extreme"@
                != "backward"@);
            assert("average"@ != "forward"@ && "average"@ != "backward"@);
            assert("forward"@ != "backward"@);
        }
        if str_eq(s, "first") {
            Ok(OutlierSelectionMode::First)
        } else if str_eq(s, "last") {
            Ok(OutlierSelectionMode::Last)
        } else if str_eq(s, "extreme") {
            Ok(OutlierSelectionMode::Extreme)
        } else if str_eq(s, "average") {
            Ok(OutlierSelectionMode::Average)
        } else if str_eq(s, "forward") {
            Ok(OutlierSelectionMode::AllForward)
        } else if str_eq(s, "backward") {
            Ok(OutlierSelectionMode::AllBackward)
        } else {
            Err(
                crate::ParseEnumError(
                    "Not an outlier selection mode. Must be one of (first|last|extreme|average|forward|backward)".to_owned(),
                ),
            )
        }
    }
}

impl BackgroundMode {
    /// Parses a background pixel selection mode name.
    pub fn from_str(s: &str) -> (r: Result<BackgroundMode, crate::ParseEnumError>)
        ensures
            s@ == "first"@ ==> r == Ok::<BackgroundMode, crate::ParseEnumError>(
                BackgroundMode::First,
            ),
            s@ == "random"@ ==> r == Ok::<BackgroundMode, crate::ParseEnumError>(
                BackgroundMode::Random,
            ),
            s@ == "average"@ ==> r == Ok::<BackgroundMode, crate::ParseEnumError>(
                BackgroundMode::Average,
            ),
            s@ == "median"@ ==> r == Ok::<BackgroundMode, crate::ParseEnumError>(
                BackgroundMode::Median,
            ),
            s@ != "first"@ && s@ != "random"@ && s@ != "average"@ && s@ != "median"@ ==> r is Err,
    {
        proof {
            reveal_strlit("first");
            reveal_strlit("random");
            reveal_strlit("average");
            reveal_strlit("median");
            assert("first"@.len() == 5 && "random"@.len() == 6 && "average"@.len() == 7
                && "median"@.len() == 6);
            assert("random"@[0] == 'r' && "median"@[0] == 'm');
            assert("first"@ != "random"@ && "first"@ != "average"@ && "first"@ != "median"@);
            assert("random"@ != "average"@ && "random"@ != "median"@);
            assert("average"@ != "median"@);
        }
        if str_eq(s, "first") {
            Ok(BackgroundMode::First)
        } else if str_eq(s, "random") {
            Ok(BackgroundMode::Random)
        } else if str_eq(s, "average") {
            Ok(BackgroundMode::Average)
        } else if str_eq(s, "median") {
            Ok(BackgroundMode::Median)
        } else {
            Err(
                crate::ParseEnumError(
                    "Not a background pixel selection mode. Must be one of (first|random|average|median)".to_owned(),
                ),
            )
        }
    }
}

/// The largest magnitude a fade keyframe's frame index may take.
pub const FADE_FRAME_LIMIT: i64 = 1_000_000;

/// The largest magnitude a fade keyframe's value may take, in fixed-point
/// units.
pub const FADE_VALUE_LIMIT: i64 = 10_000_000;

/// Linear interpolation between two keyframes at the given frame, with the
/// machine's truncating division.
pub open spec fn spec_interp(p1: (i32, i64), p2: (i32, i64), f: int) -> int {
    p1.1 + spec_div_trunc((p2.1 - p1.1) * (f - p1.0), p2.0 - p1.0)
}

/// The piecewise-linear curve through the given keyframes, evaluated at
/// frame `f`: each segment covers its right endpoint, as the sampling walk
/// that builds the curve does.
pub open spec fn spec_curve(frames: Seq<(i32, i64)>, f: int) -> int
    recommends
        frames.len() >= 2,
    decreases frames.len(),
{
    if frames.len() <= 2 || f <= frames[1].0 {
        spec_interp(frames[0], frames[1], f)
    } else {
        spec_curve(frames.drop_first(), f)
    }
}

/// A temporal weighting curve attenuating outlier blend strength, defined by
/// keyframes and extrapolated per [`FadeMode`]. Values are fixed-point.
#[derive(Debug, Clone)]
pub struct Fade {
    pub is_none: bool,
    pub mode: FadeMode,
    pub absolute: bool,
    pub offset: i32,
    pub values: Vec<i64>,
}

/// The fade factor at a frame: inside the sampled range the sampled value,
/// outside of it the nearest edge value (clamp) or the periodic repetition
/// (repeat). An unconfigured fade is the constant 1.
pub open spec fn spec_fade_at(fade: Fade, frame: int) -> int {
    if fade.is_none {
        SCALE as int
    } else {
        let i = frame - fade.offset;
        let len = fade.values@.len() as int;
        if 0 <= i < len {
            fade.values@[i] as int
        } else if fade.mode is Clamp {
            if i < 0 {
                fade.values@[0] as int
            } else {
                fade.values@[len - 1] as int
            }
        } else {
            fade.values@[i % len] as int
        }
    }
}

impl Fade {
    /// Structural invariant: nonempty bounded curve unless unconfigured.
    pub open spec fn wf(self) -> bool {
        !self.is_none ==> {
            &&& 1 <= self.values@.len() <= 4 * FADE_FRAME_LIMIT
            &&& -FADE_FRAME_LIMIT <= self.offset <= FADE_FRAME_LIMIT
            &&& forall|i: int|
                0 <= i < self.values@.len() ==> -FADE_VALUE_LIMIT <= #[trigger] self.values@[i]
                    <= FADE_VALUE_LIMIT
        }
    }

    /// Whether the keyframe sequence is valid: at least two keyframes,
    /// strictly ascending, within the frame and value limits.
    pub open spec fn keyframes_ok(frames: Seq<(i32, i64)>) -> bool {
        &&& frames.len() >= 2
        &&& forall|i: int, j: int|
            0 <= i < j < frames.len() ==> (#[trigger] frames[i]).0 < (#[trigger] frames[j]).0
        &&& forall|i: int|
            0 <= i < frames.len() ==> -FADE_FRAME_LIMIT <= (#[trigger] frames[i]).0
                <= FADE_FRAME_LIMIT && -FADE_VALUE_LIMIT <= frames[i].1 <= FADE_VALUE_LIMIT
    }

    /// Builds a fade curve from keyframes, ordered by frame: the curve is
    /// sampled once per integer frame between the first and last keyframe.
    pub fn new(mode: FadeMode, absolute: bool, frames: Vec<(i32, i64)>) -> (r: Self)
        requires
            Self::keyframes_ok(frames@),
        ensures
            r.wf(),
            !r.is_none,
            r.mode == mode,
            r.absolute == absolute,
            r.offset == frames@[0].0,
            r.values@.len() == frames@.last().0 - frames@[0].0 + 1,
            forall|i: int|
                0 <= i < r.values@.len() ==> #[trigger] r.values@[i] == spec_curve(
                    frames@,
                    frames@[0].0 + i,
                ),
    {
        let ghost n = frames@.len() as int;
        let nf = frames.len();
        let offset = frames[0].0;
        let last = frames[frames.len() - 1].0;
        proof {
            assert(frames@[n - 1] == frames@.last());
        }
        let len: usize = (last - offset) as usize;
        let mut values: Vec<i64> = Vec::new();
        let mut idx: usize = 0;
        let mut i: usize = 0;
        while i < len + 1
            invariant
                Self::keyframes_ok(frames@),
                n == frames@.len(),
                nf == frames@.len(),
                offset == frames@[0].0,
                last == frames@[n - 1].0,
                last == frames@.last().0,
                len == last - offset,
                i <= len + 1,
                0 <= idx < n - 1,
                values@.len() == i,
                i <= len ==> frames@[idx as int].0 <= offset + i <= frames@[idx as int + 1].0,
                i <= len && idx >= 1 ==> frames@[idx as int].0 < offset + i,
                forall|k: int|
                    0 <= k < i ==> #[trigger] values@[k] == spec_curve(frames@, frames@[0].0 + k),
                forall|k: int|
                    0 <= k < i ==> -FADE_VALUE_LIMIT <= #[trigger] values@[k] <= FADE_VALUE_LIMIT,
            decreases len + 1 - i,
        {
            proof {
                assert(idx + 1 < frames@.len());
            }
            let (f1, v1) = frames[idx];
            let (f2, v2) = frames[idx + 1];
            let frame: i32 = offset + i as i32;
            let dv = v2 - v1;
            let df = (frame - f1) as i64;
            let den = (f2 - f1) as i64;
            proof {
                lemma_curve_segment(frames@, idx as int, frame as int);
                assert(dv * df <= 80_000_000_000_000 && dv * df >= -80_000_000_000_000)
                    by (nonlinear_arith)
                    requires
                        -20_000_000 <= dv <= 20_000_000,
                        0 <= df <= 4_000_000;
            }
            let q = div_trunc(dv * df, den);
            proof {
                crate::fixed::lemma_div_trunc_scaled(dv as int, df as int, den as int);
            }
            values.push(v1 + q);
            if frame == f2 && i < len {
                idx = idx + 1;
            }
            i = i + 1;
        }
        Fade { is_none: false, mode, absolute, offset, values }
    }

    /// An unconfigured fade: the constant 1.
    pub fn none() -> (r: Self)
        ensures
            r.wf(),
            r.is_none,
            r.absolute,
    {
        Fade { is_none: true, mode: FadeMode::Clamp, absolute: true, offset: 0, values: Vec::new() }
    }

    /// Whether fade frames are indexed absolutely.
    pub fn absolute(&self) -> (r: bool)
        ensures
            r == self.absolute,
    {
        self.absolute
    }

    /// The fade factor at a frame, extrapolated per the fade mode.
    pub fn get(&self, frame: i32) -> (r: i64)
        requires
            self.wf(),
        ensures
            r == spec_fade_at(*self, frame as int),
            self.is_none ==> r == SCALE,
            !self.is_none ==> -FADE_VALUE_LIMIT <= r <= FADE_VALUE_LIMIT,
    {
        if self.is_none {
            return SCALE;
        }
        let mut i: i64 = frame as i64 - self.offset as i64;
        let len = self.values.len() as i64;
        if 0 <= i && i < len {
            self.values[i as usize]
        } else {
            match self.mode {
                FadeMode::Clamp => {
                    if i < 0 {
                        self.values[0]
                    } else {
                        self.values[self.values.len() - 1]
                    }
                },
                FadeMode::Repeat => {
                    let ghost i0 = i as int;
                    while i < 0
                        invariant
                            self.wf(),
                            !self.is_none,
                            len == self.values@.len(),
                            i as int % (len as int) == i0 % (len as int),
                        decreases len - i,
                    {
                        proof {
                            vstd::arithmetic::div_mod::lemma_mod_add_multiples_vanish(
                                i as int,
                                len as int,
                            );
                        }
                        i = i + len;
                    }
                    proof {
                        vstd::arithmetic::div_mod::lemma_mod_division_less_than_divisor(
                            i as int,
                            len as int,
                        );
                    }
                    i = i % len;
                    self.values[i as usize]
                },
            }
        }
    }
}

impl Fade {
    /// Whether all fade factors lie in the unit interval, as a weighting
    /// curve's do.
    pub open spec fn unit(self) -> bool {
        !self.is_none ==> forall|i: int|
            0 <= i < self.values@.len() ==> 0 <= #[trigger] self.values@[i] <= SCALE
    }
}

/// A unit fade yields factors in the unit interval at every frame.
pub proof fn lemma_fade_unit_bounds(fade: Fade, frame: int)
    requires
        fade.wf(),
        fade.unit(),
    ensures
        0 <= spec_fade_at(fade, frame) <= SCALE,
{
    if !fade.is_none {
        let len = fade.values@.len() as int;
        let i = frame - fade.offset;
        if !(0 <= i < len) && !(fade.mode is Clamp) {
            vstd::arithmetic::div_mod::lemma_mod_division_less_than_divisor(i, len);
            vstd::arithmetic::div_mod::lemma_mod_bound(i, len);
        }
    }
}

/// Law: with clamp extrapolation the fade factor before the sampled range
/// equals the factor at its first frame, and the factor after the range
/// equals the factor at its last frame.
pub proof fn lemma_fade_clamp(fade: Fade, frame: int)
    requires
        fade.wf(),
        !fade.is_none,
        fade.mode is Clamp,
    ensures
        frame <= fade.offset ==> spec_fade_at(fade, frame) == spec_fade_at(fade, fade.offset as int),
        frame >= fade.offset + fade.values@.len() - 1 ==> spec_fade_at(fade, frame)
            == spec_fade_at(fade, fade.offset + fade.values@.len() - 1),
{
}

/// Law: with repeat extrapolation the fade is periodic, with the sampled
/// range's length as the period.
pub proof fn lemma_fade_repeat(fade: Fade, frame: int)
    requires
        fade.wf(),
        !fade.is_none,
        fade.mode is Repeat,
    ensures
        spec_fade_at(fade, frame) == spec_fade_at(fade, frame + fade.values@.len()),
{
    let len = fade.values@.len() as int;
    let i = frame - fade.offset;
    vstd::arithmetic::div_mod::lemma_mod_add_multiples_vanish(i, len);
    if 0 <= i < len {
        vstd::arithmetic::div_mod::lemma_small_mod(i as nat, len as nat);
    }
    if 0 <= i + len < len {
        vstd::arithmetic::div_mod::lemma_small_mod((i + len) as nat, len as nat);
    }
}

/// Evaluating the curve at a frame inside segment `idx` reduces to the
/// interpolation between that segment's endpoints.
proof fn lemma_curve_segment(frames: Seq<(i32, i64)>, idx: int, f: int)
    requires
        frames.len() >= 2,
        0 <= idx < frames.len() - 1,
        forall|a: int, b: int|
            0 <= a < b < frames.len() ==> (#[trigger] frames[a]).0 < (#[trigger] frames[b]).0,
        frames[idx].0 <= f <= frames[idx + 1].0,
        idx >= 1 ==> frames[idx].0 < f,
    ensures
        spec_curve(frames, f) == spec_interp(frames[idx], frames[idx + 1], f),
    decreases idx,
{
    if idx == 0 {
        assert(f <= frames[1].0);
    } else {
        let rest = frames.drop_first();
        assert(rest[idx - 1] == frames[idx]);
        assert(rest[idx] == frames[idx + 1]);
        assert(forall|a: int, b: int|
            0 <= a < b < rest.len() ==> (#[trigger] rest[a]).0 < (#[trigger] rest[b]).0) by {
            assert(forall|a: int, b: int|
                0 <= a < b < rest.len() ==> rest[a] == frames[a + 1] && rest[b] == frames[b + 1]);
        }
        lemma_curve_segment(rest, idx - 1, f);
        assert(frames[1].0 <= frames[idx].0 < f);
    }
}

/// The largest magnitude a threshold bound may take, in fixed-point units.
/// Keeps the squared threshold within `i64` range.
pub const THRESHOLD_LIMIT: i64 = 2_000_000_000;

/// Outlier determination algorithm: a frame is an outlier where its distance
/// from the robust center reaches `min`; blending strength grows linearly
/// from 0 at `min` to 1 at `max`.
#[derive(Debug, Clone, Copy, PartialEq, Eq, Structural)]
pub struct Threshold {
    pub absolute: bool,
    pub min: i64,
    pub max: i64,
}

/// The blending strength for an outlier at the given distance: 0 at or below
/// `min`, 1 (that is, [`SCALE`]) at or above `max`, linear in between.
pub open spec fn spec_blend_value(t: Threshold, dist: int) -> int {
    if dist <= t.min {
        0
    } else if dist >= t.max {
        SCALE as int
    } else {
        (dist - t.min) * (SCALE as int) / (t.max - t.min)
    }
}

impl Threshold {
    /// Structural invariant: ordered, nonnegative, bounded fixed-point values.
    pub open spec fn wf(self) -> bool {
        0 <= self.min <= self.max <= THRESHOLD_LIMIT
    }

    /// Creates a new threshold. Bounds are given as fractions of the total
    /// color range; absolute thresholds are rescaled to the 8-bit sample
    /// range (multiplied by 255).
    pub fn new(absolute: bool, min: i64, max: i64) -> (r: Self)
        requires
            0 <= min <= max,
            absolute ==> max <= THRESHOLD_LIMIT / 255,
            !absolute ==> max <= THRESHOLD_LIMIT,
        ensures
            r.wf(),
            r.absolute == absolute,
            r.min == if absolute { min * 255 } else { min as int },
            r.max == if absolute { max * 255 } else { max as int },
    {
        if absolute {
            Threshold { absolute, min: min * 255, max: max * 255 }
        } else {
            Threshold { absolute, min, max }
        }
    }

    /// Creates a new absolute threshold.
    pub fn abs(min: i64, max: i64) -> (r: Self)
        requires
            0 <= min <= max <= THRESHOLD_LIMIT / 255,
        ensures
            r.wf(),
            r.absolute,
            r.min == min * 255,
            r.max == max * 255,
    {
        Threshold::new(true, min, max)
    }

    /// Creates a new relative threshold.
    pub fn rel(min: i64, max: i64) -> (r: Self)
        requires
            0 <= min <= max <= THRESHOLD_LIMIT,
        ensures
            r.wf(),
            !r.absolute,
            r.min == min,
            r.max == max,
    {
        Threshold::new(false, min, max)
    }

    /// The blending strength for an outlier at the given fixed-point
    /// distance: 0 at or below `min`, [`SCALE`] at or above `max`, and
    /// linearly interpolated in between.
    pub fn blend_value(&self, dist: i64) -> (r: i64)
        requires
            self.wf(),
            0 <= dist <= 4_000_000_000_000,
        ensures
            r == spec_blend_value(*self, dist as int),
            0 <= r <= SCALE,
    {
        if dist <= self.min {
            0
        } else if dist >= self.max {
            SCALE
        } else {
            proof {
                assert((dist - self.min) * (SCALE as int) / (self.max - self.min) < SCALE as int
                    && 0 <= (dist - self.min) * (SCALE as int) / (self.max - self.min))
                    by (nonlinear_arith)
                    requires
                        0 < dist - self.min < self.max - self.min,
                        SCALE == 10000;
            }
            (dist - self.min) * SCALE / (self.max - self.min)
        }
    }

    /// Whether this threshold works on absolute distances.
    pub fn absolute(&self) -> (r: bool)
        ensures
            r == self.absolute,
    {
        self.absolute
    }

    /// The lower threshold bound, in fixed-point units.
    pub fn min(&self) -> (r: i64)
        ensures
            r == self.min,
    {
        self.min
    }

    /// The upper threshold bound, in fixed-point units.
    pub fn max(&self) -> (r: i64)
        ensures
            r == self.max,
    {
        self.max
    }
}

} // verus!
