//! The per-pixel statistical compositing engine: robust center and scale
//! estimation, weighted outlier detection, background selection and
//! temporal blending, over sample matrices read back from the band files.

use vstd::prelude::*;
use vstd::relations::{sorted_by, total_ordering};
use vstd::seq_lib::lemma_sorted_unique;

use crate::color::{spec_blend_channel_u8, spec_blend_channel_fixed, blend_into_u8,
    blend_into_fixed_u8};
use crate::fixed::{SCALE, spec_div_trunc, div_trunc};
use crate::streams::Compression;

verus! {

/// The ascending order on bytes, as one shared spec value.
pub open spec fn u8_leq() -> spec_fn(u8, u8) -> bool {
    |a: u8, b: u8| a <= b
}

/// The ascending sort of a byte sequence.
pub open spec fn spec_sorted_seq(s: Seq<u8>) -> Seq<u8> {
    s.sort_by(u8_leq())
}

/// Inserting an element into a sequence inserts it into the multiset.
proof fn lemma_insert_multiset(s: Seq<u8>, pos: int, x: u8)
    requires
        0 <= pos <= s.len(),
    ensures
        s.insert(pos, x).to_multiset() =~= s.to_multiset().insert(x),
{
    broadcast use vstd::seq_lib::group_to_multiset_ensures;

    let t = s.insert(pos, x);
    assert(t.remove(pos) =~= s);
    assert(t[pos] == x);
    assert(t.contains(x));
    assert(s.to_multiset() =~= t.to_multiset().remove(x));
    assert(t.to_multiset().count(x) > 0);
    assert forall|y: u8| t.to_multiset().count(y) == s.to_multiset().insert(x).count(y) by {
        if y == x {
            assert(s.to_multiset().count(x) == t.to_multiset().remove(x).count(x));
        } else {
            assert(s.to_multiset().count(y) == t.to_multiset().remove(x).count(y));
        }
    }
}

/// Inserting an element at its ordered position keeps a sequence sorted.
proof fn lemma_sorted_insert(s: Seq<u8>, pos: int, x: u8)
    requires
        sorted_by(s, u8_leq()),
        0 <= pos <= s.len(),
        forall|k: int| 0 <= k < pos ==> s[k] <= x,
        pos < s.len() ==> s[pos] > x,
    ensures
        sorted_by(s.insert(pos, x), u8_leq()),
{
    let t = s.insert(pos, x);
    assert forall|i: int, j: int| 0 <= i < j < t.len() implies u8_leq()(t[i], t[j]) by {
        if j < pos {
            assert(t[i] == s[i] && t[j] == s[j]);
        } else if j == pos {
            assert(t[i] == s[i] && t[j] == x);
        } else if i < pos {
            assert(t[i] == s[i] && t[j] == s[j - 1]);
            if j - 1 >= pos && pos < s.len() {
                assert(s[pos] > x);
            }
        } else if i == pos {
            assert(t[i] == x && t[j] == s[j - 1]);
            assert(s[pos] > x);
            if j - 1 > pos {
                assert(u8_leq()(s[pos], s[j - 1]));
            }
        } else {
            assert(t[i] == s[i - 1] && t[j] == s[j - 1]);
        }
    }
}

/// Sorts a byte vector ascending, by insertion into a fresh vector.
pub fn sort_ascending(src: &Vec<u8>) -> (r: Vec<u8>)
    ensures
        r@ == spec_sorted_seq(src@),
        r@.len() == src@.len(),
{
    let mut out: Vec<u8> = Vec::new();
    let mut i: usize = 0;
    proof {
        assert(src@.subrange(0, 0) =~= Seq::<u8>::empty());
        assert(out@ =~= Seq::<u8>::empty());
    }
    while i < src.len()
        invariant
            i <= src@.len(),
            out@.len() == i,
            sorted_by(out@, u8_leq()),
            out@.to_multiset() == src@.subrange(0, i as int).to_multiset(),
        decreases src@.len() - i,
    {
        let x = src[i];
        let mut pos: usize = 0;
        while pos < out.len() && out[pos] <= x
            invariant
                pos <= out@.len(),
                forall|k: int| 0 <= k < pos ==> out@[k] <= x,
            decreases out@.len() - pos,
        {
            pos = pos + 1;
        }
        let ghost out0 = out@;
        out.insert(pos, x);
        proof {
            lemma_sorted_insert(out0, pos as int, x);
            lemma_insert_multiset(out0, pos as int, x);
            assert(src@.subrange(0, i + 1) =~= src@.subrange(0, i as int).push(x));
            broadcast use vstd::seq_lib::group_to_multiset_ensures;

            assert(src@.subrange(0, i as int).push(x).to_multiset() =~= src@.subrange(
                0,
                i as int,
            ).to_multiset().insert(x));
        }
        i = i + 1;
    }
    proof {
        assert(src@.subrange(0, src@.len() as int) =~= src@);
        src@.lemma_sort_by_ensures(u8_leq());
        assert(total_ordering(u8_leq()));
        lemma_sorted_unique(out@, src@.sort_by(u8_leq()), u8_leq());
    }
    out
}

/// The median of a sorted sample, in fixed-point units: the middle element,
/// or the mean of the two middle elements for an even-length sample.
pub open spec fn spec_median(s: Seq<u8>) -> int
    recommends
        s.len() >= 1,
{
    let len = s.len() as int;
    if (len + 1) % 2 == 0 {
        s[(len + 1) / 2 - 1] * (SCALE as int)
    } else {
        (s[(len + 1) / 2 - 1] + s[(len + 1) / 2]) * 5000
    }
}

/// A quarter-quantile of a sorted sample, in fixed-point units: the order
/// statistic at position `(n + 1) * qq / 4`, linearly interpolated between
/// neighbors unless the position is whole.
pub open spec fn spec_quantile_q4(s: Seq<u8>, qq: int) -> int
    recommends
        s.len() >= 3,
        qq == 1 || qq == 3,
{
    let pos4 = (s.len() as int + 1) * qq;
    let p1 = pos4 / 4 - 1;
    let rem = pos4 % 4;
    if rem == 0 {
        s[p1] * (SCALE as int)
    } else {
        ((4 - rem) * s[p1] + rem * s[p1 + 1]) * 2500
    }
}

/// Error type for failed selection of background pixels.
#[derive(Debug, Clone, PartialEq, Eq)]
pub struct PixelSelectionError(pub String);

/// The largest weight magnitude, in fixed-point units.
pub const WEIGHT_LIMIT: i64 = 160_000;

/// The largest squared distance the engine can produce, in fixed-point
/// units: four channels of maximal weighted scaled difference.
pub const DIST_SQ_LIMIT: i64 = 11_000_000_000_000;

/// The byte of channel `ch` of frame `i` in a sample matrix.
pub open spec fn spec_px(data: Seq<u8>, channels: int, i: int, ch: int) -> u8 {
    data[i * channels + ch]
}

/// The sub-sampled values of one channel, in sub-sample order.
pub open spec fn spec_chan_samples(
    data: Seq<u8>,
    channels: int,
    idxs: Seq<usize>,
    ch: int,
) -> Seq<u8> {
    Seq::new(idxs.len(), |k: int| spec_px(data, channels, idxs[k] as int, ch))
}

/// The robust center of one channel over the sub-sample, in fixed-point
/// units: the median of the sorted channel values.
pub open spec fn spec_chan_median(data: Seq<u8>, channels: int, idxs: Seq<usize>, ch: int) -> int {
    spec_median(spec_sorted_seq(spec_chan_samples(data, channels, idxs, ch)))
}

/// The scale denominator of one channel: the inter-quartile range of the
/// sorted channel values, substituting 1 where the range vanishes.
pub open spec fn spec_chan_iqr(data: Seq<u8>, channels: int, idxs: Seq<usize>, ch: int) -> int {
    let s = spec_sorted_seq(spec_chan_samples(data, channels, idxs, ch));
    let iqr = spec_quantile_q4(s, 3) - spec_quantile_q4(s, 1);
    if iqr <= 0 {
        SCALE as int
    } else {
        iqr
    }
}

/// The absolute value.
pub open spec fn spec_abs(v: int) -> int {
    if v >= 0 {
        v
    } else {
        -v
    }
}

/// One channel's contribution to a frame's squared distance from the
/// center: the sign of the weight times the square of the weighted (and, in
/// relative mode, scale-divided) difference. A disabled channel (weight 0)
/// contributes nothing.
pub open spec fn spec_chan_contrib(w: int, med: int, iqr: int, absolute: bool, p: int) -> int {
    if w == 0 {
        0
    } else {
        let ad = spec_abs(med - p * (SCALE as int));
        let wd = if absolute {
            spec_abs(w) * ad / (SCALE as int)
        } else {
            spec_abs(w) * ad / iqr
        };
        let mag = wd * wd / (SCALE as int);
        if w >= 0 {
            mag
        } else {
            -mag
        }
    }
}

/// The weighted squared distance of frame `i` from the per-channel centers,
/// summed over the first `ch` channels.
pub open spec fn spec_dist_sq_upto(
    data: Seq<u8>,
    channels: int,
    i: int,
    weights: Seq<i64>,
    absolute: bool,
    meds: Seq<i64>,
    iqrs: Seq<i64>,
    ch: int,
) -> int
    decreases ch,
{
    if ch <= 0 {
        0
    } else {
        spec_dist_sq_upto(data, channels, i, weights, absolute, meds, iqrs, ch - 1)
            + spec_chan_contrib(
            weights[ch - 1] as int,
            meds[ch - 1] as int,
            iqrs[ch - 1] as int,
            absolute,
            spec_px(data, channels, i, ch - 1) as int,
        )
    }
}

/// The weighted squared distance of frame `i` from the per-channel centers.
pub open spec fn spec_dist_sq(
    data: Seq<u8>,
    channels: int,
    i: int,
    weights: Seq<i64>,
    absolute: bool,
    meds: Seq<i64>,
    iqrs: Seq<i64>,
) -> int {
    spec_dist_sq_upto(data, channels, i, weights, absolute, meds, iqrs, channels)
}

/// The per-channel robust centers, in fixed-point units; 0 for disabled
/// channels.
pub open spec fn spec_medians(
    data: Seq<u8>,
    channels: int,
    idxs: Seq<usize>,
    weights: Seq<i64>,
) -> Seq<i64> {
    Seq::new(
        channels as nat,
        |ch: int|
            if weights[ch] != 0 {
                spec_chan_median(data, channels, idxs, ch) as i64
            } else {
                0i64
            },
    )
}

/// The per-channel scale denominators; 1 for disabled channels and in
/// absolute mode.
pub open spec fn spec_iqrs(
    data: Seq<u8>,
    channels: int,
    idxs: Seq<usize>,
    weights: Seq<i64>,
    absolute: bool,
) -> Seq<i64> {
    Seq::new(
        channels as nat,
        |ch: int|
            if weights[ch] != 0 && !absolute {
                spec_chan_iqr(data, channels, idxs, ch) as i64
            } else {
                SCALE
            },
    )
}

/// Everything the outlier scan of one pixel depends on: the sample matrix,
/// the configuration, and the per-channel statistics.
pub struct PixelStats {
    pub data: Seq<u8>,
    pub channels: int,
    pub weights: Seq<i64>,
    pub absolute: bool,
    pub meds: Seq<i64>,
    pub iqrs: Seq<i64>,
    pub thr_sq: int,
}

/// The squared distance of frame `i` under the given statistics.
pub open spec fn spec_dsq(st: PixelStats, i: int) -> int {
    spec_dist_sq(st.data, st.channels, i, st.weights, st.absolute, st.meds, st.iqrs)
}

/// Whether frame `i` is an outlier: its squared distance reaches the
/// squared lower threshold.
pub open spec fn spec_is_outlier(st: PixelStats, i: int) -> bool {
    spec_dsq(st, i) >= st.thr_sq
}

/// The outlier frame indices among the first `k` frames, ascending.
pub open spec fn spec_outliers_upto(st: PixelStats, k: int) -> Seq<int>
    decreases k,
{
    if k <= 0 {
        Seq::empty()
    } else {
        let prev = spec_outliers_upto(st, k - 1);
        if spec_is_outlier(st, k - 1) {
            prev.push(k - 1)
        } else {
            prev
        }
    }
}

/// The first maximal outlier among the first `k` frames, as (index,
/// squared distance), starting from (0, 0): a later frame takes over only
/// with a strictly greater distance.
pub open spec fn spec_max_outlier_upto(st: PixelStats, k: int) -> (int, int)
    decreases k,
{
    if k <= 0 {
        (0, 0)
    } else {
        let prev = spec_max_outlier_upto(st, k - 1);
        let d = spec_dsq(st, k - 1);
        if d >= st.thr_sq && d > prev.1 {
            (k - 1, d)
        } else {
            prev
        }
    }
}

/// The outlier sequence is ascending, bounded by `k`, and holds exactly the
/// frames whose distance reaches the threshold.
pub proof fn lemma_outliers_props(st: PixelStats, k: int)
    requires
        k >= 0,
    ensures
        spec_outliers_upto(st, k).len() <= k,
        forall|j: int|
            0 <= j < spec_outliers_upto(st, k).len() ==> 0 <= #[trigger] spec_outliers_upto(
                st,
                k,
            )[j] < k,
        forall|j1: int, j2: int|
            0 <= j1 < j2 < spec_outliers_upto(st, k).len() ==> spec_outliers_upto(st, k)[j1]
                < spec_outliers_upto(st, k)[j2],
        forall|i: int|
            0 <= i < k ==> (spec_is_outlier(st, i) <==> spec_outliers_upto(st, k).contains(i)),
        forall|j: int|
            0 <= j < spec_outliers_upto(st, k).len() ==> spec_is_outlier(
                st,
                spec_outliers_upto(st, k)[j],
            ),
    decreases k,
{
    if k > 0 {
        lemma_outliers_props(st, k - 1);
        let prev = spec_outliers_upto(st, k - 1);
        let cur = spec_outliers_upto(st, k);
        assert forall|i: int| 0 <= i < k implies (spec_is_outlier(st, i) <==> cur.contains(i)) by {
            if i < k - 1 {
                if prev.contains(i) {
                    let j = choose|j: int| 0 <= j < prev.len() && prev[j] == i;
                    assert(cur[j] == i);
                }
                if cur.contains(i) {
                    let j = choose|j: int| 0 <= j < cur.len() && cur[j] == i;
                    if j < prev.len() {
                        assert(prev[j] == i);
                    }
                }
            } else {
                if spec_is_outlier(st, i) {
                    assert(cur[cur.len() - 1] == i);
                }
                if cur.contains(i) && !spec_is_outlier(st, i) {
                    let j = choose|j: int| 0 <= j < cur.len() && cur[j] == i;
                    assert(prev[j] == i);
                }
            }
        }
    }
}

/// Core processor for per-pixel outlier analysis over sample matrices.
pub struct OutlierProcessor {
    pub threshold: crate::options::Threshold,
    pub background: crate::options::BackgroundMode,
    pub outlier: crate::options::OutlierSelectionMode,
    pub weights: [i64; 4],
    pub compression: crate::streams::Compression,
    pub sample_count: Option<usize>,
    pub sample_indices: Vec<usize>,
    pub fade: crate::options::Fade,
    pub rng: rand::rngs::StdRng,
}

/// Computes the per-channel robust centers and scale denominators of a
/// sample matrix over the sub-sample `idxs`.
fn compute_stats(
    data: &Vec<u8>,
    channels: usize,
    idxs: &Vec<usize>,
    weights: &[i64; 4],
    absolute: bool,
) -> (r: (Vec<i64>, Vec<i64>))
    requires
        1 <= channels <= 4,
        1 <= idxs@.len() <= 0x1000_0000,
        !absolute ==> idxs@.len() >= 3,
        forall|k: int|
            0 <= k < idxs@.len() ==> (#[trigger] idxs@[k]) as int * channels + channels
                <= data@.len(),
        data@.len() <= usize::MAX - 4,
    ensures
        r.0@ == spec_medians(data@, channels as int, idxs@, weights@),
        r.1@ == spec_iqrs(data@, channels as int, idxs@, weights@, absolute),
        forall|ch: int| 0 <= ch < channels ==> 0 <= #[trigger] r.0@[ch] <= 255 * SCALE,
        forall|ch: int| 0 <= ch < channels ==> 2500 <= #[trigger] r.1@[ch] <= 255 * SCALE,
{
    let mut meds: Vec<i64> = Vec::new();
    let mut iqrs: Vec<i64> = Vec::new();
    let mut ch: usize = 0;
    while ch < channels
        invariant
            1 <= channels <= 4,
            1 <= idxs@.len() <= 0x1000_0000,
            !absolute ==> idxs@.len() >= 3,
            forall|k: int|
                0 <= k < idxs@.len() ==> (#[trigger] idxs@[k]) as int * channels + channels
                    <= data@.len(),
            data@.len() <= usize::MAX - 4,
            ch <= channels,
            meds@.len() == ch,
            iqrs@.len() == ch,
            forall|c: int|
                0 <= c < ch ==> #[trigger] meds@[c] == spec_medians(
                    data@,
                    channels as int,
                    idxs@,
                    weights@,
                )[c],
            forall|c: int|
                0 <= c < ch ==> #[trigger] iqrs@[c] == spec_iqrs(
                    data@,
                    channels as int,
                    idxs@,
                    weights@,
                    absolute,
                )[c],
            forall|c: int| 0 <= c < ch ==> 0 <= #[trigger] meds@[c] <= 255 * SCALE,
            forall|c: int| 0 <= c < ch ==> 2500 <= #[trigger] iqrs@[c] <= 255 * SCALE,
        decreases channels - ch,
    {
        let w = weights[ch];
        if w != 0 {
            let mut vals: Vec<u8> = Vec::new();
            let mut k: usize = 0;
            while k < idxs.len()
                invariant
                    1 <= channels <= 4,
                    ch < channels,
                    data@.len() <= usize::MAX - 4,
                    k <= idxs@.len(),
                    vals@.len() == k,
                    forall|j: int|
                        0 <= j < idxs@.len() ==> (#[trigger] idxs@[j]) as int * channels + channels
                            <= data@.len(),
                    forall|j: int|
                        0 <= j < k ==> #[trigger] vals@[j] == spec_px(
                            data@,
                            channels as int,
                            idxs@[j] as int,
                            ch as int,
                        ),
                decreases idxs@.len() - k,
            {
                let idx = idxs[k];
                proof {
                    assert(idxs@[k as int] as int * channels + channels <= data@.len());
                    assert(idx as int * channels as int + ch < data@.len());
                }
                vals.push(data[idx * channels + ch]);
                k = k + 1;
            }
            proof {
                assert(vals@ =~= spec_chan_samples(data@, channels as int, idxs@, ch as int));
            }
            let sorted = sort_ascending(&vals);
            if absolute {
                let m = OutlierProcessor::median(&sorted);
                meds.push(m);
                iqrs.push(SCALE);
            } else {
                let (q1, m, q3) = OutlierProcessor::quartiles(&sorted);
                meds.push(m);
                let iqr = q3 - q1;
                if iqr <= 0 {
                    iqrs.push(SCALE);
                } else {
                    proof {
                        vstd::arithmetic::div_mod::lemma_sub_mod_noop(
                            q3 as int,
                            q1 as int,
                            2500,
                        );
                        vstd::arithmetic::div_mod::lemma_fundamental_div_mod(iqr as int, 2500);
                        vstd::arithmetic::div_mod::lemma_div_pos_is_pos(iqr as int, 2500);
                        assert(iqr as int / 2500 >= 1);
                    }
                    iqrs.push(iqr);
                }
            }
        } else {
            meds.push(0);
            iqrs.push(SCALE);
        }
        proof {
            assert(meds@[ch as int] == spec_medians(data@, channels as int, idxs@, weights@)[
                ch as int]);
            assert(iqrs@[ch as int] == spec_iqrs(data@, channels as int, idxs@, weights@, absolute)[
                ch as int]);
        }
        ch = ch + 1;
    }
    proof {
        assert(meds@ =~= spec_medians(data@, channels as int, idxs@, weights@));
        assert(iqrs@ =~= spec_iqrs(data@, channels as int, idxs@, weights@, absolute));
    }
    (meds, iqrs)
}

/// Computes the weighted squared distance of frame `i` from the channel
/// centers.
fn dist_sq_for(
    data: &Vec<u8>,
    channels: usize,
    i: usize,
    weights: &[i64; 4],
    absolute: bool,
    meds: &Vec<i64>,
    iqrs: &Vec<i64>,
) -> (r: i64)
    requires
        1 <= channels <= 4,
        (i as int + 1) * channels <= data@.len(),
        data@.len() <= usize::MAX - 4,
        meds@.len() == channels,
        iqrs@.len() == channels,
        forall|ch: int| 0 <= ch < channels ==> 0 <= #[trigger] meds@[ch] <= 255 * SCALE,
        forall|ch: int| 0 <= ch < channels ==> 2500 <= #[trigger] iqrs@[ch] <= 255 * SCALE,
        forall|ch: int| 0 <= ch < 4 ==> -WEIGHT_LIMIT <= #[trigger] weights@[ch] <= WEIGHT_LIMIT,
    ensures
        r == spec_dist_sq(data@, channels as int, i as int, weights@, absolute, meds@, iqrs@),
        -DIST_SQ_LIMIT <= r <= DIST_SQ_LIMIT,
{
    let mut acc: i64 = 0;
    let mut ch: usize = 0;
    while ch < channels
        invariant
            1 <= channels <= 4,
            (i as int + 1) * channels <= data@.len(),
            data@.len() <= usize::MAX - 4,
            meds@.len() == channels,
            iqrs@.len() == channels,
            forall|c: int| 0 <= c < channels ==> 0 <= #[trigger] meds@[c] <= 255 * SCALE,
            forall|c: int| 0 <= c < channels ==> 2500 <= #[trigger] iqrs@[c] <= 255 * SCALE,
            forall|c: int| 0 <= c < 4 ==> -WEIGHT_LIMIT <= #[trigger] weights@[c] <= WEIGHT_LIMIT,
            ch <= channels,
            acc == spec_dist_sq_upto(
                data@,
                channels as int,
                i as int,
                weights@,
                absolute,
                meds@,
                iqrs@,
                ch as int,
            ),
            -(ch as i64) * 2_750_000_000_000 <= acc <= (ch as i64) * 2_750_000_000_000,
        decreases channels - ch,
    {
        let w = weights[ch];
        if w != 0 {
            proof {
                assert(i as int * (channels as int) + channels as int <= data@.len())
                    by (nonlinear_arith)
                    requires
                        (i as int + 1) * (channels as int) <= data@.len(),
                        1 <= channels,
                        0 <= i;
                assert(i as int * channels as int + ch < data@.len());
            }
            let p = data[i * channels + ch] as i64;
            let med = meds[ch];
            let diff = med - p * SCALE;
            let ad = if diff >= 0 {
                diff
            } else {
                -diff
            };
            let aw = if w >= 0 {
                w
            } else {
                -w
            };
            proof {
                assert(0 <= aw * ad <= 408_000_000_000) by (nonlinear_arith)
                    requires
                        0 <= aw <= 160_000,
                        0 <= ad <= 2_550_000;
            }
            let num = aw * ad;
            let den = if absolute {
                SCALE
            } else {
                iqrs[ch]
            };
            let wd = num / den;
            proof {
                vstd::arithmetic::div_mod::lemma_div_pos_is_pos(num as int, den as int);
                assert(num as int / den as int <= num as int / 2500) by {
                    vstd::arithmetic::div_mod::lemma_div_is_ordered_by_denominator(
                        num as int,
                        2500,
                        den as int,
                    );
                };
                vstd::arithmetic::div_mod::lemma_div_is_ordered(
                    num as int,
                    408_000_000_000,
                    2500,
                );
                assert(0 <= wd * wd <= 26_700_000_000_000_000_000 && wd * wd / 10000
                    <= 2_750_000_000_000) by (nonlinear_arith)
                    requires
                        0 <= wd <= 163_200_000;
                vstd::arithmetic::div_mod::lemma_div_pos_is_pos(wd as int * wd, 10000);
            }
            let mag = wd * wd / SCALE;
            if w >= 0 {
                acc = acc + mag;
            } else {
                acc = acc - mag;
            }
        }
        ch = ch + 1;
    }
    acc
}

/// Scans all frames of a sample matrix for outliers. Returns the list of
/// (frame index, squared distance) pairs in frame order, and the first
/// maximal outlier as (index, squared distance), starting from (0, 0).
fn find_outliers(
    data: &Vec<u8>,
    channels: usize,
    samples: usize,
    weights: &[i64; 4],
    absolute: bool,
    meds: &Vec<i64>,
    iqrs: &Vec<i64>,
    thr_sq: i64,
) -> (r: (Vec<(usize, i64)>, usize, i64))
    requires
        1 <= channels <= 4,
        samples as int * channels == data@.len(),
        1 <= samples <= 0x4000_0000,
        data@.len() <= usize::MAX - 4,
        meds@.len() == channels,
        iqrs@.len() == channels,
        forall|ch: int| 0 <= ch < channels ==> 0 <= #[trigger] meds@[ch] <= 255 * SCALE,
        forall|ch: int| 0 <= ch < channels ==> 2500 <= #[trigger] iqrs@[ch] <= 255 * SCALE,
        forall|ch: int| 0 <= ch < 4 ==> -WEIGHT_LIMIT <= #[trigger] weights@[ch] <= WEIGHT_LIMIT,
        thr_sq >= 0,
    ensures
        ({
            let st = (PixelStats {
                data: data@,
                channels: channels as int,
                weights: weights@,
                absolute,
                meds: meds@,
                iqrs: iqrs@,
                thr_sq: thr_sq as int,
            });
            &&& r.0@.len() == spec_outliers_upto(st, samples as int).len()
            &&& forall|j: int|
                0 <= j < r.0@.len() ==> (#[trigger] r.0@[j]).0 as int == spec_outliers_upto(
                    st,
                    samples as int,
                )[j] && r.0@[j].1 as int == spec_dsq(st, spec_outliers_upto(st, samples as int)[j])
            &&& r.1 as int == spec_max_outlier_upto(st, samples as int).0
            &&& r.2 as int == spec_max_outlier_upto(st, samples as int).1
            &&& forall|j: int| 0 <= j < r.0@.len() ==> (#[trigger] r.0@[j]).0 < samples
            &&& forall|j1: int, j2: int|
                0 <= j1 < j2 < r.0@.len() ==> r.0@[j1].0 < r.0@[j2].0
            &&& forall|j: int| 0 <= j < r.0@.len() ==> (#[trigger] r.0@[j]).1 >= thr_sq
            &&& forall|j: int| 0 <= j < r.0@.len() ==> (#[trigger] r.0@[j]).1 <= DIST_SQ_LIMIT
            &&& r.0@.len() <= samples
            &&& 0 <= r.2 <= DIST_SQ_LIMIT
            &&& r.1 < samples
        }),
{
    let ghost st = (PixelStats {
        data: data@,
        channels: channels as int,
        weights: weights@,
        absolute,
        meds: meds@,
        iqrs: iqrs@,
        thr_sq: thr_sq as int,
    });
    let mut out: Vec<(usize, i64)> = Vec::new();
    let mut max_i: usize = 0;
    let mut max_d: i64 = 0;
    let mut i: usize = 0;
    while i < samples
        invariant
            1 <= channels <= 4,
            samples as int * channels == data@.len(),
            1 <= samples <= 0x4000_0000,
            data@.len() <= usize::MAX - 4,
            meds@.len() == channels,
            iqrs@.len() == channels,
            forall|ch: int| 0 <= ch < channels ==> 0 <= #[trigger] meds@[ch] <= 255 * SCALE,
            forall|ch: int| 0 <= ch < channels ==> 2500 <= #[trigger] iqrs@[ch] <= 255 * SCALE,
            forall|ch: int|
                0 <= ch < 4 ==> -WEIGHT_LIMIT <= #[trigger] weights@[ch] <= WEIGHT_LIMIT,
            thr_sq >= 0,
            st == (PixelStats {
                data: data@,
                channels: channels as int,
                weights: weights@,
                absolute,
                meds: meds@,
                iqrs: iqrs@,
                thr_sq: thr_sq as int,
            }),
            i <= samples,
            out@.len() == spec_outliers_upto(st, i as int).len(),
            forall|j: int|
                0 <= j < out@.len() ==> (#[trigger] out@[j]).0 as int == spec_outliers_upto(
                    st,
                    i as int,
                )[j] && out@[j].1 as int == spec_dsq(st, spec_outliers_upto(st, i as int)[j]),
            max_i as int == spec_max_outlier_upto(st, i as int).0,
            max_d as int == spec_max_outlier_upto(st, i as int).1,
            forall|j: int| 0 <= j < out@.len() ==> (#[trigger] out@[j]).0 < samples,
            forall|j1: int, j2: int| 0 <= j1 < j2 < out@.len() ==> out@[j1].0 < out@[j2].0,
            forall|j: int| 0 <= j < out@.len() ==> (#[trigger] out@[j]).1 >= thr_sq,
            forall|j: int| 0 <= j < out@.len() ==> (#[trigger] out@[j]).1 <= DIST_SQ_LIMIT,
            out@.len() <= i,
            0 <= max_d <= DIST_SQ_LIMIT,
            max_i < samples,
        decreases samples - i,
    {
        proof {
            assert((i as int + 1) * channels <= samples as int * channels) by (nonlinear_arith)
                requires
                    0 <= i as int + 1 <= samples as int,
                    0 < channels;
            lemma_outliers_props(st, i as int);
            lemma_outliers_props(st, i as int + 1);
        }
        let d = dist_sq_for(data, channels, i, weights, absolute, meds, iqrs);
        if d >= thr_sq {
            out.push((i, d));
            if d > max_d {
                max_d = d;
                max_i = i;
            }
        }
        i = i + 1;
    }
    (out, max_i, max_d)
}

/// The integer square root: the greatest value whose square does not exceed
/// the argument, and 0 for nonpositive arguments.
pub open spec fn spec_sqrt(x: int) -> int
    decreases x,
{
    if x <= 0 {
        0
    } else {
        let p = spec_sqrt(x - 1);
        if (p + 1) * (p + 1) <= x {
            p + 1
        } else {
            p
        }
    }
}

/// `spec_sqrt` computes the integer square root.
pub proof fn lemma_spec_sqrt(x: int)
    requires
        x >= 0,
    ensures
        crate::fixed::is_sqrt(x, spec_sqrt(x)),
    decreases x,
{
    if x > 0 {
        lemma_spec_sqrt(x - 1);
        let p = spec_sqrt(x - 1);
        if (p + 1) * (p + 1) <= x {
            assert((p + 2) * (p + 2) > x) by (nonlinear_arith)
                requires
                    (p + 1) * (p + 1) > x - 1,
                    (p + 1) * (p + 1) <= x,
                    p >= 0;
        }
    }
}

/// The integer square root is unique.
pub proof fn lemma_sqrt_unique(x: int, a: int, b: int)
    requires
        crate::fixed::is_sqrt(x, a),
        crate::fixed::is_sqrt(x, b),
    ensures
        a == b,
{
    if a < b {
        assert((a + 1) * (a + 1) <= b * b) by (nonlinear_arith)
            requires
                0 <= a < b;
    }
    if b < a {
        assert((b + 1) * (b + 1) <= a * a) by (nonlinear_arith)
            requires
                0 <= b < a;
    }
}

/// The fixed-point distance for a squared distance: the integer square root
/// of the rescaled value.
fn dist_of(dist_sq: i64) -> (r: i64)
    requires
        0 <= dist_sq <= DIST_SQ_LIMIT,
    ensures
        r as int == spec_sqrt(dist_sq as int * (SCALE as int)),
        0 <= r <= 400_000_000,
{
    proof {
        assert(dist_sq as int * 10000 <= 110_000_000_000_000_000i64 as int) by (nonlinear_arith)
            requires
                0 <= dist_sq <= 11_000_000_000_000i64 as int;
    }
    let x = (dist_sq as u64) * (SCALE as u64);
    let s = crate::fixed::isqrt(x);
    proof {
        lemma_spec_sqrt(x as int);
        lemma_sqrt_unique(x as int, s as int, spec_sqrt(x as int));
        assert(s as int <= 400_000_000) by (nonlinear_arith)
            requires
                s as int * (s as int) <= 110_000_000_000_000_000i64 as int,
                s as int >= 0;
    }
    s as i64
}

/// The fade factor for one frame: indexed absolutely by batch offset plus
/// frame, or relatively by distance from the end of the stack.
pub open spec fn spec_fade_for(f: crate::options::Fade, frame: int, total: int, offset: int) -> int {
    if f.absolute {
        crate::options::spec_fade_at(f, offset + frame)
    } else {
        crate::options::spec_fade_at(f, total - frame - 1)
    }
}

/// One frame's channel bytes as integers.
pub open spec fn spec_row(data: Seq<u8>, channels: int, i: int) -> Seq<int> {
    Seq::new(channels as nat, |ch: int| spec_px(data, channels, i, ch) as int)
}

/// Fixed-point rounding to the nearest integer, halves away from zero.
pub open spec fn spec_round_away(v: int) -> int {
    if v >= 0 {
        (v + 5000) / 10000
    } else {
        -((-v + 5000) / 10000)
    }
}

/// Saturation to the 8-bit sample range.
pub open spec fn spec_sat_u8(v: int) -> int {
    if v < 0 {
        0
    } else if v > 255 {
        255
    } else {
        v
    }
}

/// The blend byte reported for a fixed-point blend factor: the factor
/// rescaled to 0..255, rounded and saturated.
pub open spec fn spec_blend_byte(b: int) -> int {
    spec_sat_u8(spec_round_away(b * 255))
}

/// The sum of one channel over the first `k` frames.
pub open spec fn spec_chan_sum(data: Seq<u8>, channels: int, ch: int, k: int) -> int
    decreases k,
{
    if k <= 0 {
        0
    } else {
        spec_chan_sum(data, channels, ch, k - 1) + spec_px(data, channels, k - 1, ch)
    }
}

/// The mean of one channel over all frames, in fixed-point units
/// (truncated).
pub open spec fn spec_chan_mean(data: Seq<u8>, channels: int, ch: int, samples: int) -> int {
    spec_chan_sum(data, channels, ch, samples) * (SCALE as int) / samples
}

/// The sum of one channel over the given frames.
pub open spec fn spec_outlier_chan_sum(data: Seq<u8>, channels: int, ch: int, outs: Seq<int>) -> int
    decreases outs.len(),
{
    if outs.len() == 0 {
        0
    } else {
        spec_outlier_chan_sum(data, channels, ch, outs.drop_last()) + spec_px(
            data,
            channels,
            outs.last(),
            ch,
        )
    }
}

/// The average background of one channel: the mean of all frames; where
/// outliers exist, their contribution is removed by the closed-form
/// correction. Where every frame is an outlier the correction degenerates
/// (a division by zero in real arithmetic): the channel saturates to 255,
/// or 0 for an all-zero channel.
pub open spec fn spec_avg_bg_chan(
    data: Seq<u8>,
    channels: int,
    samples: int,
    outs: Seq<int>,
    ch: int,
) -> int {
    let mean = spec_chan_mean(data, channels, ch, samples);
    let k = outs.len() as int;
    if k == 0 {
        crate::fixed::spec_round_to_int(mean)
    } else if k == samples {
        if mean == 0 {
            0
        } else {
            255
        }
    } else if k == 1 {
        spec_sat_u8(
            spec_round_away(
                mean * samples / (samples - 1) - spec_px(data, channels, outs[0], ch) * (
                SCALE as int) / samples,
            ),
        )
    } else {
        spec_sat_u8(
            spec_round_away(
                mean * samples / (samples - k) - spec_outlier_chan_sum(data, channels, ch, outs) * (
                SCALE as int) / samples,
            ),
        )
    }
}

/// The blend factor of one representative outlier: the frame's fade factor
/// times the threshold's blend value for its distance.
pub open spec fn spec_blend_factor(
    f: crate::options::Fade,
    t: crate::options::Threshold,
    idx: int,
    dist: int,
    samples: int,
    frame_offset: int,
) -> int {
    spec_div_trunc(
        spec_fade_for(f, idx, samples, frame_offset) * crate::options::spec_blend_value(t, dist),
        SCALE as int,
    )
}

/// The composite of a single representative sample over the background: the
/// blended pixel and the blend byte.
pub open spec fn spec_single_composite(
    f: crate::options::Fade,
    t: crate::options::Threshold,
    bg: Seq<int>,
    sample: Seq<int>,
    idx: int,
    dist: int,
    samples: int,
    frame_offset: int,
) -> (Seq<int>, int) {
    let blend = spec_blend_factor(f, t, idx, dist, samples, frame_offset);
    (
        Seq::new(bg.len(), |ch: int| spec_blend_channel_u8(bg[ch], sample[ch], blend)),
        spec_blend_byte(blend),
    )
}

/// One step of the progressive composite: one outlier blended over the
/// accumulated fixed-point pixel, and the inverse blend updated.
pub open spec fn spec_all_step(
    f: crate::options::Fade,
    t: crate::options::Threshold,
    st: PixelStats,
    samples: int,
    frame_offset: int,
    acc: (Seq<int>, int),
    idx: int,
) -> (Seq<int>, int) {
    let dist = spec_sqrt(spec_dsq(st, idx) * (SCALE as int));
    let blend = spec_blend_factor(f, t, idx, dist, samples, frame_offset);
    (
        Seq::new(
            acc.0.len(),
            |ch: int|
                spec_blend_channel_fixed(
                    acc.0[ch],
                    spec_px(st.data, st.channels, idx, ch) * (SCALE as int),
                    blend,
                ),
        ),
        acc.1 * ((SCALE as int) - blend) / (SCALE as int),
    )
}

/// The progressive composite of the given outliers, in order, over an
/// accumulated fixed-point pixel and inverse blend.
pub open spec fn spec_all_fold(
    f: crate::options::Fade,
    t: crate::options::Threshold,
    st: PixelStats,
    samples: int,
    frame_offset: int,
    outs: Seq<int>,
    acc: (Seq<int>, int),
) -> (Seq<int>, int)
    decreases outs.len(),
{
    if outs.len() == 0 {
        acc
    } else {
        spec_all_fold(
            f,
            t,
            st,
            samples,
            frame_offset,
            outs.drop_first(),
            spec_all_step(f, t, st, samples, frame_offset, acc, outs[0]),
        )
    }
}

/// Folding one more outlier applies one more step.
pub proof fn lemma_all_fold_snoc(
    f: crate::options::Fade,
    t: crate::options::Threshold,
    st: PixelStats,
    samples: int,
    frame_offset: int,
    outs: Seq<int>,
    x: int,
    acc: (Seq<int>, int),
)
    ensures
        spec_all_fold(f, t, st, samples, frame_offset, outs.push(x), acc) == spec_all_step(
            f,
            t,
            st,
            samples,
            frame_offset,
            spec_all_fold(f, t, st, samples, frame_offset, outs, acc),
            x,
        ),
    decreases outs.len(),
{
    if outs.len() == 0 {
        assert(outs.push(x).drop_first() =~= Seq::<int>::empty());
        assert(outs.push(x)[0] == x);
        let acc1 = spec_all_step(f, t, st, samples, frame_offset, acc, x);
        assert(spec_all_fold(f, t, st, samples, frame_offset, Seq::<int>::empty(), acc1) == acc1);
        assert(spec_all_fold(f, t, st, samples, frame_offset, outs, acc) == acc);
    } else {
        assert(outs.push(x).drop_first() =~= outs.drop_first().push(x));
        assert(outs.push(x)[0] == outs[0]);
        lemma_all_fold_snoc(
            f,
            t,
            st,
            samples,
            frame_offset,
            outs.drop_first(),
            x,
            spec_all_step(f, t, st, samples, frame_offset, acc, outs[0]),
        );
    }
}

/// The sum of the distances of the given frames, in fixed-point units.
pub open spec fn spec_dist_sum(st: PixelStats, outs: Seq<int>) -> int
    decreases outs.len(),
{
    if outs.len() == 0 {
        0
    } else {
        spec_dist_sum(st, outs.drop_last()) + spec_sqrt(spec_dsq(st, outs.last()) * (SCALE as int))
    }
}

/// The composite of the outliers over the background pixel, under the
/// configured outlier selection mode: the final pixel and the blend byte.
/// Expects a nonempty outlier set.
pub open spec fn spec_composite(
    pr: OutlierProcessor,
    st: PixelStats,
    samples: int,
    frame_offset: int,
    bg: Seq<int>,
) -> (Seq<int>, int) {
    let outs = spec_outliers_upto(st, samples);
    if outs.len() == 1 {
        spec_single_composite(
            pr.fade,
            pr.threshold,
            bg,
            spec_row(st.data, st.channels, outs[0]),
            outs[0],
            spec_sqrt(spec_dsq(st, outs[0]) * (SCALE as int)),
            samples,
            frame_offset,
        )
    } else if pr.outlier is AllForward || pr.outlier is AllBackward {
        let ordered = if pr.outlier is AllForward {
            outs
        } else {
            outs.reverse()
        };
        let acc0 = (Seq::new(bg.len(), |ch: int| bg[ch] * (SCALE as int)), SCALE as int);
        let folded = spec_all_fold(pr.fade, pr.threshold, st, samples, frame_offset, ordered, acc0);
        (
            Seq::new(folded.0.len(), |ch: int| crate::fixed::spec_round_to_int(folded.0[ch])),
            spec_blend_byte((SCALE as int) - folded.1),
        )
    } else if pr.outlier is Average {
        let k = outs.len() as int;
        let sample = Seq::new(
            st.channels as nat,
            |ch: int|
                crate::fixed::spec_round_to_int(
                    spec_outlier_chan_sum(st.data, st.channels, ch, outs) * (SCALE as int) / k,
                ),
        );
        let dist = spec_dist_sum(st, outs) / k;
        spec_single_composite(pr.fade, pr.threshold, bg, sample, 0, dist, samples, frame_offset)
    } else {
        let idx = if pr.outlier is First {
            outs[0]
        } else if pr.outlier is Last {
            outs.last()
        } else {
            spec_max_outlier_upto(st, samples).0
        };
        let dsq = if pr.outlier is First {
            spec_dsq(st, outs[0])
        } else if pr.outlier is Last {
            spec_dsq(st, outs.last())
        } else {
            spec_max_outlier_upto(st, samples).1
        };
        spec_single_composite(
            pr.fade,
            pr.threshold,
            bg,
            spec_row(st.data, st.channels, idx),
            idx,
            spec_sqrt(dsq * (SCALE as int)),
            samples,
            frame_offset,
        )
    }
}

/// Whether some outlier entry holds the frame index `k`.
pub open spec fn spec_holds_index(outliers: Seq<(usize, i64)>, k: int) -> bool {
    exists|j: int| 0 <= j < outliers.len() && (#[trigger] outliers[j]).0 == k
}

/// Error type for a failed band file read.
#[derive(Debug, Clone, Copy, PartialEq, Eq, Structural)]
pub enum ProcessError {
    /// Chunks within one band disagree in decompressed length.
    ChunkLengthMismatch,
    /// A chunk payload does not decode under the run's scheme.
    ChunkDecode,
    /// A size, count or sub-sample beyond the library's machine limits, or
    /// chunks that overrun their band's byte range.
    Unsupported,
}

/// The view of an optional index list.
pub open spec fn spec_opt_view(idxs: Option<&Vec<usize>>) -> Option<Seq<usize>> {
    match idxs {
        Some(v) => Some(v@),
        None => None,
    }
}

/// The fade batch offset a frame selection implies: its first index.
pub open spec fn spec_frame_offset_of(idxs: Option<&Vec<usize>>) -> int {
    match idxs {
        Some(v) => v@[0] as int,
        None => 0,
    }
}

/// The chunk positions a band read consumes: every chunk, or the selected
/// prefix of an ascending index list.
pub open spec fn spec_band_sel(file: Seq<u8>, idxs: Option<Seq<usize>>) -> Seq<int> {
    let chunks = crate::streams::spec_chunks(file);
    match idxs {
        Some(s) => crate::streams::spec_selected(s, chunks.len() as int),
        None => Seq::new(chunks.len(), |i: int| i),
    }
}

/// Whether every consumed chunk of a band decodes.
pub open spec fn spec_band_decodes(c: Compression, file: Seq<u8>, idxs: Option<Seq<usize>>) -> bool {
    let chunks = crate::streams::spec_chunks(file);
    let sel = spec_band_sel(file, idxs);
    forall|j: int|
        0 <= j < sel.len() ==> (#[trigger] crate::streams::spec_decompress(
            c,
            chunks[sel[j]],
        )) is Some
}

/// The number of rows a band read consumes.
pub open spec fn spec_band_rows(file: Seq<u8>, idxs: Option<Seq<usize>>) -> int {
    spec_band_sel(file, idxs).len() as int
}

/// The decoded length of a band's first consumed chunk; 0 where none is
/// consumed.
pub open spec fn spec_band_nbytes(c: Compression, file: Seq<u8>, idxs: Option<Seq<usize>>) -> int {
    let chunks = crate::streams::spec_chunks(file);
    let sel = spec_band_sel(file, idxs);
    if sel.len() == 0 {
        0
    } else {
        (crate::streams::spec_decompress(c, chunks[sel[0]])->0).len() as int
    }
}

/// Whether every consumed chunk of a band decodes to the same length.
pub open spec fn spec_band_uniform(c: Compression, file: Seq<u8>, idxs: Option<Seq<usize>>) -> bool {
    let chunks = crate::streams::spec_chunks(file);
    let sel = spec_band_sel(file, idxs);
    forall|j: int|
        0 <= j < sel.len() ==> (crate::streams::spec_decompress(
            c,
            chunks[#[trigger] sel[j]],
        )->0).len() == spec_band_nbytes(c, file, idxs)
}

/// The concatenation of a band's consumed decoded chunks, in order.
pub open spec fn spec_band_data(c: Compression, file: Seq<u8>, idxs: Option<Seq<usize>>) -> Seq<
    u8,
> {
    let chunks = crate::streams::spec_chunks(file);
    match idxs {
        Some(s) => crate::streams::spec_concat_selected(
            c,
            chunks,
            crate::streams::spec_selected(s, chunks.len() as int),
        ),
        None => crate::streams::spec_concat(crate::streams::spec_decoded(c, chunks)),
    }
}

/// Copies a byte vector.
fn clone_bytes(src: &Vec<u8>) -> (r: Vec<u8>)
    ensures
        r@ == src@,
{
    let mut out: Vec<u8> = Vec::new();
    let mut i: usize = 0;
    while i < src.len()
        invariant
            i <= src@.len(),
            out@ == src@.subrange(0, i as int),
        decreases src@.len() - i,
    {
        out.push(src[i]);
        proof {
            assert(out@ =~= src@.subrange(0, i + 1));
        }
        i = i + 1;
    }
    proof {
        assert(out@ =~= src@);
    }
    out
}

/// Reads a band file's chunks in order, decompressing each into one
/// concatenated buffer. With an ascending index list only the listed chunks
/// are decoded; others are skipped without decompression. Returns the
/// buffer, the number of rows read, and the uniform decoded chunk length.
/// All decoded chunks must agree in length.
fn read_band(
    file: &Vec<u8>,
    compression: &Compression,
    image_indices: Option<&Vec<usize>>,
) -> (r: Result<(Vec<u8>, usize, usize), ProcessError>)
    requires
        match image_indices {
            Some(idxs) => forall|a: int, b: int|
                0 <= a < b < idxs@.len() ==> idxs@[a] < idxs@[b],
            None => true,
        },
    ensures
        ({
            let opt = spec_opt_view(image_indices);
            let decodes = spec_band_decodes(*compression, file@, opt);
            let uniform = spec_band_uniform(*compression, file@, opt);
            let rows = spec_band_rows(file@, opt);
            let nbytes = spec_band_nbytes(*compression, file@, opt);
            &&& (r is Ok <==> decodes && uniform && rows <= 0x1000_0000 && nbytes
                <= 0x4000_0000)
            &&& r matches Ok(t) ==> {
                &&& t.0@ == spec_band_data(*compression, file@, opt)
                &&& t.1 == rows
                &&& t.2 == nbytes
                &&& t.0@.len() == t.1 * t.2
                &&& (t.1 == 0 ==> t.2 == 0)
                &&& t.1 <= 0x1000_0000
                &&& t.2 <= 0x4000_0000
            }
            &&& r == Err::<(Vec<u8>, usize, usize), ProcessError>(ProcessError::ChunkDecode)
                ==> !decodes
            &&& r == Err::<(Vec<u8>, usize, usize), ProcessError>(
                ProcessError::ChunkLengthMismatch,
            ) ==> !uniform
            &&& r == Err::<(Vec<u8>, usize, usize), ProcessError>(ProcessError::Unsupported)
                ==> (rows > 0x1000_0000 || nbytes > 0x4000_0000)
        }),
{
    let mut stream = crate::streams::PixelInputStream::new(clone_bytes(file), *compression);
    let mut data: Vec<u8> = Vec::new();
    let mut num_rows: usize = 0;
    let mut num_bytes: usize = 0;
    let ghost chunks = crate::streams::spec_chunks(file@);
    let ghost dec = crate::streams::spec_decoded(*compression, chunks);
    match image_indices {
        Some(indices) => {
            let mut curr_row: usize = 0;
            let mut curr_idx: usize = 0;
            proof {
                assert(stream.data@.skip(0) =~= stream.data@);
                assert(chunks.skip(0) =~= chunks);
                assert(spec_opt_view(image_indices) == Some(indices@));
            }
            loop
                invariant
                    stream.compression == compression,
                    stream.data@ == file@,
                    stream.pos <= stream.data@.len(),
                    chunks == crate::streams::spec_chunks(file@),
                    image_indices == Some(indices),
                    forall|a: int, b: int|
                        0 <= a < b < indices@.len() ==> indices@[a] < indices@[b],
                    curr_idx <= indices@.len(),
                    num_rows == curr_idx,
                    4 * curr_row <= stream.pos,
                    curr_row <= chunks.len() ==> crate::streams::spec_chunks(
                        stream.data@.skip(stream.pos as int),
                    ) =~~= chunks.skip(curr_row as int),
                    curr_row > chunks.len() ==> crate::streams::spec_chunks(
                        stream.data@.skip(stream.pos as int),
                    ) =~~= Seq::<Seq<u8>>::empty(),
                    forall|j: int|
                        0 <= j < curr_idx ==> ((#[trigger] indices@[j]) as int) < chunks.len(),
                    forall|j: int|
                        0 <= j < curr_idx ==> (#[trigger] crate::streams::spec_decompress(
                            *compression,
                            chunks[indices@[j] as int],
                        )) is Some,
                    forall|j: int|
                        0 <= j < curr_idx ==> (crate::streams::spec_decompress(
                            *compression,
                            chunks[(#[trigger] indices@[j]) as int],
                        )->0).len() == num_bytes || curr_idx == 0,
                    data@ == crate::streams::spec_concat_selected(
                        *compression,
                        chunks,
                        Seq::new(curr_idx as nat, |j: int| indices@[j] as int),
                    ),
                    curr_idx < indices@.len() ==> curr_row <= indices@[curr_idx as int],
                    data@.len() == num_rows * num_bytes,
                    num_rows == 0 ==> num_bytes == 0,
                    num_rows <= 0x1000_0000,
                    num_bytes <= 0x4000_0000,
                ensures
                    num_rows == curr_idx <= indices@.len(),
                    forall|j: int|
                        0 <= j < curr_idx ==> ((#[trigger] indices@[j]) as int) < chunks.len(),
                    forall|j: int|
                        0 <= j < curr_idx ==> (#[trigger] crate::streams::spec_decompress(
                            *compression,
                            chunks[indices@[j] as int],
                        )) is Some,
                    forall|j: int|
                        0 <= j < curr_idx ==> (crate::streams::spec_decompress(
                            *compression,
                            chunks[(#[trigger] indices@[j]) as int],
                        )->0).len() == num_bytes || curr_idx == 0,
                    data@ == crate::streams::spec_concat_selected(
                        *compression,
                        chunks,
                        Seq::new(curr_idx as nat, |j: int| indices@[j] as int),
                    ),
                    curr_idx == indices@.len() || (indices@[curr_idx as int] as int)
                        >= chunks.len(),
                    data@.len() == num_rows * num_bytes,
                    num_rows == 0 ==> num_bytes == 0,
                    num_rows <= 0x1000_0000,
                    num_bytes <= 0x4000_0000,
                decreases stream.data@.len() - stream.pos + 1 + (indices@.len() - curr_idx),
            {
                if curr_idx >= indices.len() {
                    break ;
                }
                let ghost pos0 = stream.pos;
                let ghost data0 = data@;
                let ghost rows0 = num_rows as int;
                let ghost nb0 = num_bytes as int;
                if curr_row == indices[curr_idx] {
                    match stream.read_chunk(&mut data) {
                        Ok(Some(n_bytes)) => {
                            proof {
                                crate::streams::lemma_next_chunk_step(
                                    stream.data@,
                                    pos0 as int,
                                );
                                let (payload, newpos) = crate::streams::spec_next_chunk(
                                    stream.data@,
                                    pos0 as int,
                                )->0;
                                assert(crate::streams::spec_chunks(
                                    stream.data@.skip(pos0 as int),
                                ).len() >= 1);
                                assert(curr_row <= chunks.len());
                                assert(chunks.skip(curr_row as int).len() >= 1);
                                assert(curr_row < chunks.len());
                                assert(chunks.skip(curr_row as int)[0] == payload);
                                assert(chunks[curr_row as int] == payload);
                                assert(crate::streams::spec_chunks(stream.data@.skip(newpos))
                                    =~~= chunks.skip(curr_row as int).skip(1));
                                assert(chunks.skip(curr_row as int).skip(1) =~~= chunks.skip(
                                    curr_row as int + 1,
                                ));
                            }
                            let ghost opt = spec_opt_view(image_indices);
                            let ghost sel = spec_band_sel(file@, opt);
                            proof {
                                crate::streams::lemma_selected_extends(
                                    indices@,
                                    chunks.len() as int,
                                    curr_idx as int + 1,
                                );
                                assert(sel[curr_idx as int] == curr_row as int);
                                assert(crate::streams::spec_decompress(
                                    *compression,
                                    chunks[sel[curr_idx as int]],
                                )->0 == crate::streams::spec_decompress(
                                    *compression,
                                    chunks[curr_row as int],
                                )->0);
                            }
                            num_rows = num_rows + 1;
                            if num_rows > 0x1000_0000 {
                                proof {
                                    assert(sel.len() >= curr_idx + 1);
                                    assert(spec_band_rows(
                                        file@,
                                        spec_opt_view(image_indices),
                                    ) > 0x1000_0000);
                                }
                                return Err(ProcessError::Unsupported);
                            }
                            if num_bytes == 0 && num_rows == 1 {
                                num_bytes = n_bytes;
                            } else if num_bytes != n_bytes {
                                proof {
                                    assert(crate::streams::spec_decompress(
                                        *compression,
                                        chunks[sel[0]],
                                    )->0.len() == num_bytes);
                                    assert(spec_band_nbytes(*compression, file@, opt)
                                        == num_bytes);
                                    assert(!spec_band_uniform(*compression, file@, opt));
                                }
                                return Err(ProcessError::ChunkLengthMismatch);
                            }
                            if n_bytes > 0x4000_0000 {
                                proof {
                                    assert(sel[0] == indices@[0] as int);
                                    assert(crate::streams::spec_decompress(
                                        *compression,
                                        chunks[sel[0]],
                                    )->0.len() == n_bytes);
                                    assert(spec_band_nbytes(*compression, file@, opt) == n_bytes);
                                }
                                return Err(ProcessError::Unsupported);
                            }
                            proof {
                                let sel1 = Seq::new(
                                    curr_idx as nat + 1,
                                    |j: int| indices@[j] as int,
                                );
                                assert(sel1.drop_last() =~= Seq::new(
                                    curr_idx as nat,
                                    |j: int| indices@[j] as int,
                                ));
                                assert(sel1.last() == curr_row as int);
                                assert(data@ =~= crate::streams::spec_concat_selected(
                                    *compression,
                                    chunks,
                                    sel1,
                                ));
                                assert(data@.len() == data0.len() + n_bytes);
                                if rows0 == 0 {
                                    assert(rows0 * nb0 == 0) by (nonlinear_arith)
                                        requires rows0 == 0;
                                    assert(num_rows as int * (num_bytes as int)
                                        == num_bytes as int) by (nonlinear_arith)
                                        requires num_rows == 1;
                                } else {
                                    assert(num_rows as int * (num_bytes as int) == rows0 * (
                                    num_bytes as int) + num_bytes as int) by (nonlinear_arith)
                                        requires num_rows as int == rows0 + 1;
                                }
                            }
                            curr_idx = curr_idx + 1;
                        },
                        Ok(None) => {
                            proof {
                                if curr_row <= chunks.len() {
                                    assert(chunks.skip(curr_row as int)
                                        =~~= Seq::<Seq<u8>>::empty());
                                    assert(curr_row == chunks.len());
                                }
                                assert((indices@[curr_idx as int] as int) >= chunks.len());
                            }
                            break ;
                        },
                        Err(_) => {
                            proof {
                                crate::streams::lemma_next_chunk_step(stream.data@, pos0 as int);
                                let (payload, newpos) = crate::streams::spec_next_chunk(
                                    stream.data@,
                                    pos0 as int,
                                )->0;
                                assert(crate::streams::spec_chunks(
                                    stream.data@.skip(pos0 as int),
                                ).len() >= 1);
                                assert(curr_row <= chunks.len());
                                assert(chunks.skip(curr_row as int).len() >= 1);
                                assert(curr_row < chunks.len());
                                assert(chunks.skip(curr_row as int)[0] == payload);
                                assert(chunks[curr_row as int] == payload);
                                crate::streams::lemma_selected_extends(
                                    indices@,
                                    chunks.len() as int,
                                    curr_idx as int + 1,
                                );
                                let opt = spec_opt_view(image_indices);
                                assert(spec_band_sel(file@, opt)[curr_idx as int]
                                    == curr_row as int);
                                assert(!spec_band_decodes(*compression, file@, opt));
                            }
                            return Err(ProcessError::ChunkDecode);
                        },
                    }
                } else {
                    let result = stream.skip_chunk();
                    proof {
                        if result is Some {
                            if crate::streams::spec_next_chunk(stream.data@, pos0 as int)
                                is Some {
                                crate::streams::lemma_next_chunk_step(stream.data@, pos0 as int);
                                let (payload, newpos) = crate::streams::spec_next_chunk(
                                    stream.data@,
                                    pos0 as int,
                                )->0;
                                assert(crate::streams::spec_chunks(
                                    stream.data@.skip(pos0 as int),
                                ).len() >= 1);
                                assert(curr_row <= chunks.len());
                                assert(chunks.skip(curr_row as int).len() >= 1);
                                assert(curr_row < chunks.len());
                                assert(stream.pos as int == newpos);
                                assert(crate::streams::spec_chunks(stream.data@.skip(newpos))
                                    =~~= chunks.skip(curr_row as int).skip(1));
                                assert(chunks.skip(curr_row as int).skip(1) =~~= chunks.skip(
                                    curr_row as int + 1,
                                ));
                            } else {
                                // The record at the cursor is truncated: the parse ends
                                // here, and the skip clamps the cursor to the end.
                                assert(crate::streams::spec_chunks(
                                    stream.data@.skip(pos0 as int),
                                ) =~~= Seq::<Seq<u8>>::empty());
                                assert(stream.pos == stream.data@.len());
                                assert(stream.data@.skip(stream.pos as int)
                                    =~= Seq::<u8>::empty());
                                assert(crate::streams::spec_chunks(
                                    stream.data@.skip(stream.pos as int),
                                ) =~~= Seq::<Seq<u8>>::empty());
                                if curr_row <= chunks.len() {
                                    assert(chunks.skip(curr_row as int)
                                        =~~= Seq::<Seq<u8>>::empty());
                                    assert(curr_row == chunks.len());
                                }
                            }
                        } else {
                            assert(crate::streams::spec_chunks(stream.data@.skip(pos0 as int))
                                =~~= Seq::<Seq<u8>>::empty());
                            if curr_row <= chunks.len() {
                                assert(chunks.skip(curr_row as int) =~~= Seq::<Seq<u8>>::empty());
                                assert(curr_row == chunks.len());
                            }
                            assert((indices@[curr_idx as int] as int) >= chunks.len());
                        }
                    }
                    if result.is_none() {
                        break ;
                    }
                }
                curr_row = curr_row + 1;
            }
            proof {
                crate::streams::lemma_selected_prefix(
                    indices@,
                    chunks.len() as int,
                    curr_idx as int,
                );
                let opt = spec_opt_view(image_indices);
                let sel = spec_band_sel(file@, opt);
                assert(sel =~= Seq::new(curr_idx as nat, |j: int| indices@[j] as int));
                assert(spec_band_rows(file@, opt) == num_rows);
                assert forall|j: int|
                    0 <= j < sel.len() implies (#[trigger] crate::streams::spec_decompress(
                    *compression,
                    chunks[sel[j]],
                )) is Some by {
                    assert(sel[j] == indices@[j] as int);
                }
                assert(spec_band_decodes(*compression, file@, opt));
                if num_rows > 0 {
                    assert(spec_band_nbytes(*compression, file@, opt) == num_bytes) by {
                        assert(sel[0] == indices@[0] as int);
                    };
                } else {
                    assert(spec_band_nbytes(*compression, file@, opt) == 0);
                }
                assert forall|j: int|
                    0 <= j < sel.len() implies (crate::streams::spec_decompress(
                    *compression,
                    chunks[#[trigger] sel[j]],
                )->0).len() == spec_band_nbytes(*compression, file@, opt) by {
                    assert(sel[j] == indices@[j] as int);
                }
                assert(spec_band_uniform(*compression, file@, opt));
                assert(data@ == spec_band_data(*compression, file@, opt));
            }
        },
        None => {
            proof {
                assert(stream.data@.skip(0) =~= stream.data@);
                assert(chunks.skip(0) =~= chunks);
                assert(spec_opt_view(image_indices) is None);
                assert(spec_band_sel(file@, spec_opt_view(image_indices)) =~= Seq::new(
                    chunks.len(),
                    |i: int| i,
                ));
            }
            let mut k_exec: usize = 0;
            loop
                invariant
                    stream.compression == compression,
                    stream.data@ == file@,
                    stream.pos <= stream.data@.len(),
                    chunks == crate::streams::spec_chunks(file@),
                    dec == crate::streams::spec_decoded(*compression, chunks),
                    image_indices is None,
                    spec_band_sel(file@, spec_opt_view(image_indices)) =~= Seq::new(
                        chunks.len(),
                        |i: int| i,
                    ),
                    k_exec <= chunks.len(),
                    num_rows == k_exec,
                    crate::streams::spec_chunks(stream.data@.skip(stream.pos as int))
                        =~~= chunks.skip(k_exec as int),
                    crate::streams::spec_all_decode(
                        *compression,
                        chunks.subrange(0, k_exec as int),
                    ),
                    forall|i: int|
                        0 <= i < k_exec ==> (#[trigger] dec[i]).len() == num_bytes || k_exec == 0,
                    num_rows == 0 ==> num_bytes == 0,
                    data@ == crate::streams::spec_concat(dec.subrange(0, k_exec as int)),
                    data@.len() == num_rows * num_bytes,
                    num_rows <= 0x1000_0000,
                    num_bytes <= 0x4000_0000,
                ensures
                    num_rows <= 0x1000_0000,
                    num_bytes <= 0x4000_0000,
                    num_rows == chunks.len(),
                    crate::streams::spec_all_decode(*compression, chunks),
                    forall|i: int|
                        0 <= i < chunks.len() ==> (#[trigger] dec[i]).len() == num_bytes
                            || num_rows == 0,
                    num_rows == 0 ==> num_bytes == 0,
                    data@ == crate::streams::spec_concat(dec),
                    data@.len() == num_rows * num_bytes,
                decreases stream.data@.len() - stream.pos + 1,
            {
                let ghost pos0 = stream.pos;
                let ghost data0 = data@;
                let ghost rows0 = num_rows as int;
                let ghost nb0 = num_bytes as int;
                match stream.read_chunk(&mut data) {
                    Ok(Some(n_bytes)) => {
                        proof {
                            crate::streams::lemma_next_chunk_step(stream.data@, pos0 as int);
                            let (payload, newpos) = crate::streams::spec_next_chunk(
                                stream.data@,
                                pos0 as int,
                            )->0;
                            assert(crate::streams::spec_chunks(stream.data@.skip(pos0 as int)).len()
                                >= 1);
                            assert(chunks.skip(k_exec as int).len() >= 1);
                            assert(k_exec < chunks.len());
                            assert(chunks.skip(k_exec as int)[0] == payload);
                            assert(chunks[k_exec as int] == payload);
                            assert(crate::streams::spec_chunks(stream.data@.skip(newpos))
                                =~~= chunks.skip(k_exec as int).skip(1));
                            assert(chunks.skip(k_exec as int).skip(1) =~~= chunks.skip(
                                k_exec as int + 1,
                            ));
                            assert(dec[k_exec as int] == crate::streams::spec_decompress(
                                *compression,
                                payload,
                            )->0);
                        }
                        num_rows = num_rows + 1;
                        if num_rows > 0x1000_0000 {
                            proof {
                                let opt = spec_opt_view(image_indices);
                                assert(spec_band_sel(file@, opt).len() == chunks.len());
                                assert(k_exec < chunks.len());
                                assert(spec_band_rows(file@, opt) > 0x1000_0000);
                            }
                            return Err(ProcessError::Unsupported);
                        }
                        if num_bytes == 0 && num_rows == 1 {
                            num_bytes = n_bytes;
                        } else if num_bytes != n_bytes {
                            proof {
                                let opt = spec_opt_view(image_indices);
                                let sel = spec_band_sel(file@, opt);
                                assert(k_exec >= 1);
                                assert(sel[0] == 0int);
                                assert(sel[k_exec as int] == k_exec as int);
                                assert(dec[0].len() == num_bytes);
                                assert(dec[0] == crate::streams::spec_decompress(
                                    *compression,
                                    chunks[0],
                                )->0);
                                assert(spec_band_nbytes(*compression, file@, opt) == num_bytes);
                                assert(!spec_band_uniform(*compression, file@, opt));
                            }
                            return Err(ProcessError::ChunkLengthMismatch);
                        }
                        if n_bytes > 0x4000_0000 {
                            proof {
                                let opt = spec_opt_view(image_indices);
                                let sel = spec_band_sel(file@, opt);
                                assert(sel[0] == 0int);
                                assert(dec[0].len() == n_bytes || k_exec == 0);
                                assert(dec[0] == crate::streams::spec_decompress(
                                    *compression,
                                    chunks[0],
                                )->0);
                                assert(spec_band_nbytes(*compression, file@, opt) == n_bytes);
                            }
                            return Err(ProcessError::Unsupported);
                        }
                        proof {
                            let sub1 = chunks.subrange(0, k_exec as int + 1);
                            assert forall|i: int|
                                0 <= i < sub1.len() implies (#[trigger] crate::streams::spec_decompress(
                                *compression,
                                sub1[i],
                            )) is Some by {
                                if i < k_exec as int {
                                    assert(sub1[i] == chunks.subrange(0, k_exec as int)[i]);
                                } else {
                                    assert(sub1[i] == chunks[k_exec as int]);
                                }
                            }
                            assert(dec.subrange(0, k_exec as int + 1).drop_last() =~~= dec.subrange(
                                0,
                                k_exec as int,
                            ));
                            assert(dec.subrange(0, k_exec as int + 1).last() == dec[k_exec as int]);
                            assert(data@ =~= crate::streams::spec_concat(
                                dec.subrange(0, k_exec as int + 1),
                            ));
                            assert(data@.len() == data0.len() + n_bytes);
                            if rows0 == 0 {
                                assert(rows0 * nb0 == 0) by (nonlinear_arith)
                                    requires rows0 == 0;
                                assert(num_rows as int * (num_bytes as int) == num_bytes as int)
                                    by (nonlinear_arith)
                                    requires num_rows == 1;
                            } else {
                                assert(num_rows as int * (num_bytes as int) == rows0 * (
                                num_bytes as int) + num_bytes as int) by (nonlinear_arith)
                                    requires num_rows as int == rows0 + 1;
                            }
                        }
                        k_exec = k_exec + 1;
                    },
                    Ok(None) => {
                        proof {
                            assert(chunks.skip(k_exec as int) =~~= Seq::<Seq<u8>>::empty());
                            assert(k_exec == chunks.len());
                            assert(dec.subrange(0, k_exec as int) =~~= dec);
                            assert(chunks.subrange(0, k_exec as int) =~~= chunks);
                        }
                        break ;
                    },
                    Err(_) => {
                        proof {
                            crate::streams::lemma_next_chunk_step(stream.data@, pos0 as int);
                            let (payload, newpos) = crate::streams::spec_next_chunk(
                                stream.data@,
                                pos0 as int,
                            )->0;
                            assert(chunks.skip(k_exec as int).len() >= 1);
                            assert(k_exec < chunks.len());
                            assert(chunks.skip(k_exec as int)[0] == payload);
                            assert(chunks[k_exec as int] == payload);
                            let opt = spec_opt_view(image_indices);
                            assert(spec_band_sel(file@, opt)[k_exec as int] == k_exec as int);
                            assert(!spec_band_decodes(*compression, file@, opt));
                        }
                        return Err(ProcessError::ChunkDecode);
                    },
                }
            }
            proof {
                let opt = spec_opt_view(image_indices);
                let sel = spec_band_sel(file@, opt);
                assert(sel =~= Seq::new(chunks.len(), |i: int| i));
                assert(spec_band_rows(file@, opt) == num_rows);
                assert forall|j: int|
                    0 <= j < sel.len() implies (#[trigger] crate::streams::spec_decompress(
                    *compression,
                    chunks[sel[j]],
                )) is Some by {
                    assert(sel[j] == j);
                }
                assert(spec_band_decodes(*compression, file@, opt));
                if num_rows > 0 {
                    assert(spec_band_nbytes(*compression, file@, opt) == num_bytes) by {
                        assert(sel[0] == 0int);
                        assert(dec[0].len() == num_bytes);
                    };
                } else {
                    assert(spec_band_nbytes(*compression, file@, opt) == 0);
                }
                assert forall|j: int|
                    0 <= j < sel.len() implies (crate::streams::spec_decompress(
                    *compression,
                    chunks[#[trigger] sel[j]],
                )->0).len() == spec_band_nbytes(*compression, file@, opt) by {
                    assert(sel[j] == j);
                    assert(dec[j].len() == num_bytes || num_rows == 0);
                }
                assert(spec_band_uniform(*compression, file@, opt));
                assert(data@ == spec_band_data(*compression, file@, opt));
            }
        },
    }
    Ok((data, num_rows, num_bytes))
}
fn copy_row(pixel: &mut Vec<u8>, data: &Vec<u8>, channels: usize, i: usize)
    requires
        old(pixel)@.len() == channels,
        1 <= channels,
        (i as int + 1) * channels <= data@.len(),
        data@.len() <= usize::MAX - 4,
    ensures
        final(pixel)@.len() == channels,
        forall|ch: int|
            0 <= ch < channels ==> final(pixel)@[ch] as int == spec_row(
                data@,
                channels as int,
                i as int,
            )[ch],
{
    let mut ch: usize = 0;
    proof {
        assert(i as int * (channels as int) + channels as int <= data@.len()) by (nonlinear_arith)
            requires
                (i as int + 1) * (channels as int) <= data@.len(),
                1 <= channels,
                0 <= i;
    }
    while ch < channels
        invariant
            pixel@.len() == channels,
            1 <= channels,
            i as int * channels + channels <= data@.len(),
            data@.len() <= usize::MAX - 4,
            ch <= channels,
            forall|c: int|
                0 <= c < ch ==> pixel@[c] as int == spec_row(data@, channels as int, i as int)[c],
        decreases channels - ch,
    {
        pixel[ch] = data[i * channels + ch];
        ch = ch + 1;
    }
}

/// Fills the pixel with the rounded per-channel medians.
fn fill_median(pixel: &mut Vec<u8>, meds: &Vec<i64>)
    requires
        old(pixel)@.len() == meds@.len(),
        forall|c: int| 0 <= c < meds@.len() ==> 0 <= #[trigger] meds@[c] <= 255 * SCALE,
    ensures
        final(pixel)@.len() == old(pixel)@.len(),
        forall|c: int|
            0 <= c < final(pixel)@.len() ==> final(pixel)@[c] as int
                == crate::fixed::spec_round_to_int(meds@[c] as int),
{
    let mut ch: usize = 0;
    while ch < pixel.len()
        invariant
            pixel@.len() == meds@.len(),
            forall|c: int| 0 <= c < meds@.len() ==> 0 <= #[trigger] meds@[c] <= 255 * SCALE,
            ch <= pixel@.len(),
            forall|c: int|
                0 <= c < ch ==> pixel@[c] as int == crate::fixed::spec_round_to_int(
                    meds@[c] as int,
                ),
        decreases pixel@.len() - ch,
    {
        let v = crate::fixed::round_to_int(meds[ch]);
        pixel[ch] = v as u8;
        ch = ch + 1;
    }
}

/// Sums one channel over all frames of a sample matrix.
fn chan_sum(data: &Vec<u8>, channels: usize, ch: usize, samples: usize) -> (r: i64)
    requires
        1 <= channels <= 4,
        ch < channels,
        samples as int * channels == data@.len(),
        samples <= 0x4000_0000,
        data@.len() <= usize::MAX - 4,
    ensures
        r == spec_chan_sum(data@, channels as int, ch as int, samples as int),
        0 <= r <= 255 * (samples as i64),
{
    let mut sum: i64 = 0;
    let mut i: usize = 0;
    while i < samples
        invariant
            1 <= channels <= 4,
            ch < channels,
            samples as int * channels == data@.len(),
            samples <= 0x4000_0000,
            data@.len() <= usize::MAX - 4,
            i <= samples,
            sum == spec_chan_sum(data@, channels as int, ch as int, i as int),
            0 <= sum <= 255 * (i as i64),
        decreases samples - i,
    {
        proof {
            assert((i as int + 1) * (channels as int) <= samples as int * channels)
                by (nonlinear_arith)
                requires
                    0 <= i as int + 1 <= samples as int,
                    0 < channels;
            assert(i as int * (channels as int) + channels as int == (i as int + 1) * (
            channels as int)) by (nonlinear_arith);
        }
        sum = sum + data[i * channels + ch] as i64;
        i = i + 1;
    }
    sum
}

/// Fills the pixel with the average background: the per-channel mean with
/// the outliers' contribution removed in closed form.
fn fill_average(pixel: &mut Vec<u8>, data: &Vec<u8>, channels: usize, samples: usize, outliers: &Vec<
    (usize, i64),
>)
    requires
        old(pixel)@.len() == channels,
        1 <= channels <= 4,
        samples as int * channels == data@.len(),
        1 <= samples <= 0x4000_0000,
        data@.len() <= usize::MAX - 4,
        outliers@.len() <= samples,
        forall|j: int| 0 <= j < outliers@.len() ==> (#[trigger] outliers@[j]).0 < samples,
    ensures
        final(pixel)@.len() == channels,
        forall|c: int|
            0 <= c < channels ==> final(pixel)@[c] as int == spec_avg_bg_chan(
                data@,
                channels as int,
                samples as int,
                outliers@.map_values(|p: (usize, i64)| p.0 as int),
                c,
            ),
{
    let ghost outs = outliers@.map_values(|p: (usize, i64)| p.0 as int);
    let k = outliers.len();
    let mut ch: usize = 0;
    while ch < channels
        invariant
            pixel@.len() == channels,
            1 <= channels <= 4,
            samples as int * channels == data@.len(),
            1 <= samples <= 0x4000_0000,
            data@.len() <= usize::MAX - 4,
            outliers@.len() <= samples,
            forall|j: int| 0 <= j < outliers@.len() ==> (#[trigger] outliers@[j]).0 < samples,
            outs == outliers@.map_values(|p: (usize, i64)| p.0 as int),
            k == outliers@.len(),
            ch <= channels,
            forall|c: int|
                0 <= c < ch ==> pixel@[c] as int == spec_avg_bg_chan(
                    data@,
                    channels as int,
                    samples as int,
                    outs,
                    c,
                ),
        decreases channels - ch,
    {
        let sum = chan_sum(data, channels, ch, samples);
        proof {
            assert(sum as int * 10000 <= 255 * 0x4000_0000i64 as int * 10000) by (nonlinear_arith)
                requires
                    0 <= sum as int <= 255 * 0x4000_0000i64 as int;
        }
        let mean = sum * SCALE / samples as i64;
        proof {
            vstd::arithmetic::div_mod::lemma_div_pos_is_pos(sum as int * 10000, samples as int);
            assert(mean as int <= 255 * 10000) by {
                assert(sum as int * 10000 <= (255 * (samples as int)) * 10000) by (nonlinear_arith)
                    requires
                        sum as int <= 255 * (samples as int);
                assert((255 * (samples as int)) * 10000 == (samples as int) * 2_550_000)
                    by (nonlinear_arith);
                vstd::arithmetic::div_mod::lemma_div_is_ordered(
                    sum as int * 10000,
                    (samples as int) * 2_550_000,
                    samples as int,
                );
                vstd::arithmetic::div_mod::lemma_div_multiples_vanish(2_550_000, samples as int);
            };
        }
        let v: u8;
        if k == 0 {
            v = crate::fixed::round_to_int(mean) as u8;
        } else if k == samples {
            v = if mean == 0 {
                0
            } else {
                255
            };
        } else {
            let mut osum: i64 = 0;
            let mut j: usize = 0;
            while j < k
                invariant
                    pixel@.len() == channels,
                    1 <= channels <= 4,
                    ch < channels,
                    samples as int * channels == data@.len(),
                    1 <= samples <= 0x4000_0000,
                    data@.len() <= usize::MAX - 4,
                    forall|q: int| 0 <= q < outliers@.len() ==> (#[trigger] outliers@[q]).0 < samples,
                    outs == outliers@.map_values(|p: (usize, i64)| p.0 as int),
                    k == outliers@.len(),
                    k <= samples,
                    j <= k,
                    osum == spec_outlier_chan_sum(
                        data@,
                        channels as int,
                        ch as int,
                        outs.subrange(0, j as int),
                    ),
                    0 <= osum <= 255 * (j as i64),
                decreases k - j,
            {
                let idx = outliers[j].0;
                proof {
                    assert(idx as int * (channels as int) + channels as int <= data@.len())
                        by (nonlinear_arith)
                        requires
                            (idx as int + 1) <= samples as int,
                            samples as int * (channels as int) == data@.len(),
                            1 <= channels,
                            0 <= idx;
                    assert(outs.subrange(0, j + 1).drop_last() =~= outs.subrange(0, j as int));
                    assert(outs.subrange(0, j + 1).last() == idx as int);
                }
                osum = osum + data[idx * channels + ch] as i64;
                j = j + 1;
            }
            proof {
                assert(outs.subrange(0, k as int) =~= outs);
            }
            let t1: i64;
            let t2: i64;
            proof {
                assert(mean as int * (samples as int) <= 2_550_000 * 0x4000_0000i64 as int)
                    by (nonlinear_arith)
                    requires
                        0 <= mean as int <= 2_550_000,
                        0 <= samples as int <= 0x4000_0000i64 as int;
                assert(osum as int * 10000 <= 255 * 0x4000_0000i64 as int * 10000)
                    by (nonlinear_arith)
                    requires
                        0 <= osum as int <= 255 * 0x4000_0000i64 as int;
                vstd::arithmetic::div_mod::lemma_div_pos_is_pos(
                    mean as int * (samples as int),
                    samples as int - k as int,
                );
                vstd::arithmetic::div_mod::lemma_div_pos_is_pos(
                    osum as int * 10000,
                    samples as int,
                );
                vstd::arithmetic::div_mod::lemma_div_is_ordered(
                    mean as int * (samples as int),
                    2_550_000 * 0x4000_0000i64 as int,
                    samples as int - k as int,
                );
                vstd::arithmetic::div_mod::lemma_div_is_ordered(
                    osum as int * 10000,
                    255 * 0x4000_0000i64 as int * 10000,
                    samples as int,
                );
            }
            if k == 1 {
                let idx0 = outliers[0].0;
                proof {
                    assert(idx0 as int * (channels as int) + channels as int <= data@.len())
                        by (nonlinear_arith)
                        requires
                            (idx0 as int + 1) <= samples as int,
                            samples as int * (channels as int) == data@.len(),
                            1 <= channels,
                            0 <= idx0;
                    assert(outs[0] == idx0 as int);
                }
                let p0 = data[idx0 * channels + ch] as i64;
                t1 = mean * samples as i64 / (samples as i64 - 1);
                t2 = p0 * SCALE / samples as i64;
            } else {
                t1 = mean * samples as i64 / (samples as i64 - k as i64);
                t2 = osum * SCALE / samples as i64;
            }
            let d = t1 - t2;
            let rv: i64 = if d >= 0 {
                (d + crate::fixed::HALF_SCALE) / SCALE
            } else {
                -(((-d) + crate::fixed::HALF_SCALE) / SCALE)
            };
            v = if rv < 0 {
                0
            } else if rv > 255 {
                255
            } else {
                rv as u8
            };
        }
        pixel[ch] = v;
        ch = ch + 1;
    }
}

/// Blends a single representative sample into the background pixel and
/// returns the blend byte.
fn apply_single(
    fade_cfg: &crate::options::Fade,
    t: &crate::options::Threshold,
    pixel: &mut Vec<u8>,
    sample: &[u8],
    idx: usize,
    dist: i64,
    samples: usize,
    frame_offset: i32,
) -> (r: u8)
    requires
        fade_cfg.wf(),
        fade_cfg.unit(),
        t.wf(),
        old(pixel)@.len() == sample@.len(),
        0 <= dist <= 4_000_000_000_000,
        idx <= samples,
        samples <= 0x2000_0000,
        -0x2000_0000 <= frame_offset <= 0x2000_0000,
    ensures
        ({
            let res = spec_single_composite(
                *fade_cfg,
                *t,
                old(pixel)@.map_values(|b: u8| b as int),
                sample@.map_values(|b: u8| b as int),
                idx as int,
                dist as int,
                samples as int,
                frame_offset as int,
            );
            &&& final(pixel)@.len() == old(pixel)@.len()
            &&& forall|c: int| 0 <= c < final(pixel)@.len() ==> final(pixel)@[c] as int == res.0[c]
            &&& r as int == res.1
        }),
{
    let fade_v = if fade_cfg.absolute() {
        fade_cfg.get(frame_offset + idx as i32)
    } else {
        fade_cfg.get(samples as i32 - idx as i32 - 1)
    };
    proof {
        crate::options::lemma_fade_unit_bounds(
            *fade_cfg,
            if fade_cfg.absolute {
                frame_offset as int + idx as int
            } else {
                samples as int - idx as int - 1
            },
        );
    }
    let bv = t.blend_value(dist);
    proof {
        assert(0 <= fade_v * bv <= 100_000_000) by (nonlinear_arith)
            requires
                0 <= fade_v <= 10000,
                0 <= bv <= 10000;
    }
    let blend = div_trunc(fade_v * bv, SCALE);
    proof {
        crate::fixed::lemma_div_trunc_scaled(fade_v as int, bv as int, SCALE as int);
        assert(fade_v as int * (bv as int) == bv as int * (fade_v as int)) by (nonlinear_arith);
        assert(blend <= 10000) by {
            crate::fixed::lemma_div_trunc_scaled(bv as int, fade_v as int, SCALE as int);
        };
    }
    blend_into_u8(pixel, sample, blend);
    let byte = (blend * 255 + crate::fixed::HALF_SCALE) / SCALE;
    proof {
        vstd::arithmetic::div_mod::lemma_div_pos_is_pos(blend as int * 255 + 5000, 10000);
        assert forall|c: int| 0 <= c < final(pixel)@.len() implies final(pixel)@[c] as int
            == spec_single_composite(
            *fade_cfg,
            *t,
            old(pixel)@.map_values(|b: u8| b as int),
            sample@.map_values(|b: u8| b as int),
            idx as int,
            dist as int,
            samples as int,
            frame_offset as int,
        ).0[c] by {
            assert(old(pixel)@.map_values(|b: u8| b as int)[c] == old(pixel)@[c] as int);
            assert(sample@.map_values(|b: u8| b as int)[c] == sample@[c] as int);
        }
    }
    byte as u8
}

/// The per-pixel statistics a processor derives from a sample matrix: the
/// centers and scales over its sub-sample, and its squared lower threshold.
pub open spec fn spec_stats_for(pr: OutlierProcessor, data: Seq<u8>, channels: int) -> PixelStats {
    PixelStats {
        data,
        channels,
        weights: pr.weights@,
        absolute: pr.threshold.absolute,
        meds: spec_medians(data, channels, pr.sample_indices@, pr.weights@),
        iqrs: spec_iqrs(data, channels, pr.sample_indices@, pr.weights@, pr.threshold.absolute),
        thr_sq: pr.threshold.min * pr.threshold.min / (SCALE as int),
    }
}

/// The median background: the rounded per-channel centers.
pub open spec fn spec_median_bg(st: PixelStats) -> Seq<int> {
    Seq::new(st.channels as nat, |ch: int| crate::fixed::spec_round_to_int(st.meds[ch] as int))
}

/// The average background over all channels.
pub open spec fn spec_avg_bg(st: PixelStats, samples: int) -> Seq<int> {
    Seq::new(
        st.channels as nat,
        |ch: int|
            spec_avg_bg_chan(
                st.data,
                st.channels,
                samples,
                spec_outliers_upto(st, samples),
                ch,
            ),
    )
}

/// The background frame the First policy selects: the first non-outlier, or
/// frame 0 where every frame is an outlier.
pub open spec fn spec_first_bg_index(st: PixelStats, samples: int, bi: int) -> bool {
    if spec_outliers_upto(st, samples).len() == samples {
        bi == 0
    } else {
        &&& 0 <= bi < samples
        &&& !spec_is_outlier(st, bi)
        &&& forall|q: int| 0 <= q < bi ==> spec_is_outlier(st, q)
    }
}

/// A background frame the Random policy may select: any non-outlier, or any
/// frame at all where every frame is an outlier.
pub open spec fn spec_random_bg_index(st: PixelStats, samples: int, bi: int) -> bool {
    &&& 0 <= bi < samples
    &&& spec_outliers_upto(st, samples).len() < samples ==> !spec_is_outlier(st, bi)
}

/// The per-pixel contract of the compositing engine: relates the output
/// pixel, the blend byte and the warning flag to the statistics, the
/// background policy and the composite specified for the sample matrix.
/// Only the processor's configuration fields matter.
pub open spec fn spec_pixel_result(
    cfg: OutlierProcessor,
    data: Seq<u8>,
    channels: int,
    frame_offset: int,
    pix: Seq<int>,
    byte: int,
    warn: bool,
) -> bool {
    let samples = data.len() as int / channels;
    let st = spec_stats_for(cfg, data, channels);
    let outs = spec_outliers_upto(st, samples);
    let warn_all = outs.len() == samples;
    if outs.len() == 0 {
        &&& byte == 0
        &&& warn == false
        &&& match cfg.background {
            crate::options::BackgroundMode::First => pix == spec_row(data, channels, 0),
            crate::options::BackgroundMode::Random => exists|bi: int|
                0 <= bi < samples && pix == spec_row(data, channels, bi),
            crate::options::BackgroundMode::Average => pix == spec_avg_bg(st, samples),
            crate::options::BackgroundMode::Median => pix == spec_median_bg(st),
        }
    } else {
        match cfg.background {
            crate::options::BackgroundMode::First => exists|bi: int|
                {
                    &&& #[trigger] spec_first_bg_index(st, samples, bi)
                    &&& (pix, byte) == spec_composite(
                        cfg,
                        st,
                        samples,
                        frame_offset,
                        spec_row(data, channels, bi),
                    )
                    &&& warn == warn_all
                },
            crate::options::BackgroundMode::Random => exists|bi: int|
                {
                    &&& #[trigger] spec_random_bg_index(st, samples, bi)
                    &&& (pix, byte) == spec_composite(
                        cfg,
                        st,
                        samples,
                        frame_offset,
                        spec_row(data, channels, bi),
                    )
                    &&& warn == warn_all
                },
            crate::options::BackgroundMode::Average => (pix, byte) == spec_composite(
                cfg,
                st,
                samples,
                frame_offset,
                spec_avg_bg(st, samples),
            ) && warn == false,
            crate::options::BackgroundMode::Median => (pix, byte) == spec_composite(
                cfg,
                st,
                samples,
                frame_offset,
                spec_median_bg(st),
            ) && warn == false,
        }
    }
}

/// Whether a pixel raises the all-outliers warning: every frame of its
/// stack is an outlier, under a First or Random background.
pub open spec fn spec_pixel_warn(cfg: OutlierProcessor, data: Seq<u8>, channels: int) -> bool {
    let samples = data.len() as int / channels;
    let st = spec_stats_for(cfg, data, channels);
    let outs = spec_outliers_upto(st, samples);
    &&& outs.len() == samples
    &&& outs.len() > 0
    &&& (cfg.background is First || cfg.background is Random)
}

/// The sample matrix of one output column of a band: the consumed rows'
/// channel bytes at that column, frame-major.
pub open spec fn spec_matrix(
    data: Seq<u8>,
    nbytes: int,
    channels: int,
    rows: int,
    col: int,
) -> Seq<u8> {
    Seq::new(
        (rows * channels) as nat,
        |i: int| data[(i / channels) * nbytes + col * channels + (i % channels)],
    )
}

/// One composited output pixel of one band column: the output raster holds
/// a pixel satisfying the engine's per-pixel contract for that column's
/// sample matrix, and the blend raster holds its blend byte on the color
/// channels and 255 on a fourth channel.
pub open spec fn spec_out_pixel(
    cfg: OutlierProcessor,
    file: Seq<u8>,
    opt: Option<Seq<usize>>,
    channels: int,
    slice_bytes: int,
    frame_offset: int,
    buffer: Seq<u8>,
    blend: Seq<u8>,
    b: int,
    col: int,
) -> bool {
    let bdata = spec_band_data(cfg.compression, file, opt);
    let rows = spec_band_rows(file, opt);
    let nbytes = spec_band_nbytes(cfg.compression, file, opt);
    let matrix = spec_matrix(bdata, nbytes, channels, rows, col);
    let off = b * slice_bytes + col * channels;
    let pix = Seq::new(channels as nat, |ch: int| buffer[off + ch] as int);
    let byte = blend[off] as int;
    &&& spec_pixel_result(
        cfg,
        matrix,
        channels,
        frame_offset,
        pix,
        byte,
        spec_pixel_warn(cfg, matrix, channels),
    )
    &&& forall|ch: int|
        0 <= ch < channels ==> (#[trigger] blend[off + ch]) as int == (if ch < 3 {
            byte
        } else {
            255
        })
}

/// The number of warning pixels among the first `cols` columns of a band.
pub open spec fn spec_band_warns(
    cfg: OutlierProcessor,
    bdata: Seq<u8>,
    nbytes: int,
    channels: int,
    rows: int,
    cols: int,
) -> int
    decreases cols,
{
    if cols <= 0 {
        0
    } else {
        spec_band_warns(cfg, bdata, nbytes, channels, rows, cols - 1) + (if spec_pixel_warn(
            cfg,
            spec_matrix(bdata, nbytes, channels, rows, cols - 1),
            channels,
        ) {
            1int
        } else {
            0int
        })
    }
}

/// The number of warning pixels among the first `k` bands.
pub open spec fn spec_warns_upto(
    cfg: OutlierProcessor,
    files: Seq<Vec<u8>>,
    opt: Option<Seq<usize>>,
    channels: int,
    k: int,
) -> int
    decreases k,
{
    if k <= 0 {
        0
    } else {
        spec_warns_upto(cfg, files, opt, channels, k - 1) + {
            let file = files[k - 1]@;
            let rows = spec_band_rows(file, opt);
            let nbytes = spec_band_nbytes(cfg.compression, file, opt);
            if rows >= 1 && nbytes >= 1 {
                spec_band_warns(
                    cfg,
                    spec_band_data(cfg.compression, file, opt),
                    nbytes,
                    channels,
                    rows,
                    nbytes / channels,
                )
            } else {
                0
            }
        }
    }
}

/// The output-pixel predicate reads only the pixel's own byte range: it
/// transfers between raster states that agree there.
pub proof fn lemma_out_pixel_frame(
    cfg: OutlierProcessor,
    file: Seq<u8>,
    opt: Option<Seq<usize>>,
    channels: int,
    slice_bytes: int,
    frame_offset: int,
    buf1: Seq<u8>,
    bl1: Seq<u8>,
    buf2: Seq<u8>,
    bl2: Seq<u8>,
    bb: int,
    cc: int,
)
    requires
        channels >= 1,
        buf1.len() == buf2.len(),
        bl1.len() == bl2.len(),
        bl1.len() == buf1.len(),
        0 <= bb * slice_bytes + cc * channels,
        bb * slice_bytes + cc * channels + channels <= buf1.len(),
        forall|j: int|
            bb * slice_bytes + cc * channels <= j < bb * slice_bytes + cc * channels + channels
                ==> #[trigger] buf2[j] == buf1[j],
        forall|j: int|
            bb * slice_bytes + cc * channels <= j < bb * slice_bytes + cc * channels + channels
                ==> #[trigger] bl2[j] == bl1[j],
        spec_out_pixel(cfg, file, opt, channels, slice_bytes, frame_offset, buf1, bl1, bb, cc),
    ensures
        spec_out_pixel(cfg, file, opt, channels, slice_bytes, frame_offset, buf2, bl2, bb, cc),
{
    let off = bb * slice_bytes + cc * channels;
    assert(Seq::new(channels as nat, |ch: int| buf2[off + ch] as int) =~= Seq::new(
        channels as nat,
        |ch: int| buf1[off + ch] as int,
    ));
    assert(bl2[off] == bl1[off]);
    assert forall|ch: int|
        0 <= ch < channels implies (#[trigger] bl2[off + ch]) == bl1[off + ch] by {}
}

/// Where every band so far consumes nothing, no warnings have been counted.
pub proof fn lemma_warns_upto_zero(
    cfg: OutlierProcessor,
    files: Seq<Vec<u8>>,
    opt: Option<Seq<usize>>,
    channels: int,
    k: int,
)
    requires
        forall|b: int|
            0 <= b < k ==> (spec_band_rows(#[trigger] files[b]@, opt) == 0 || spec_band_nbytes(
                cfg.compression,
                files[b]@,
                opt,
            ) == 0),
    ensures
        spec_warns_upto(cfg, files, opt, channels, k) == 0,
    decreases k,
{
    if k > 0 {
        lemma_warns_upto_zero(cfg, files, opt, channels, k - 1);
    }
}

/// The per-pixel contract depends only on the configuration fields: two
/// processors that agree on them (the generator state aside) satisfy it for
/// exactly the same outcomes.
pub proof fn lemma_pixel_result_congruence(
    a: OutlierProcessor,
    b: OutlierProcessor,
    data: Seq<u8>,
    channels: int,
    frame_offset: int,
    pix: Seq<int>,
    byte: int,
    warn: bool,
)
    requires
        config_eq(a, b),
    ensures
        spec_pixel_result(a, data, channels, frame_offset, pix, byte, warn) == spec_pixel_result(
            b,
            data,
            channels,
            frame_offset,
            pix,
            byte,
            warn,
        ),
        spec_pixel_warn(a, data, channels) == spec_pixel_warn(b, data, channels),
{
    let st = spec_stats_for(a, data, channels);
    assert(spec_stats_for(b, data, channels) == st);
    let samples = data.len() as int / channels;
    let outs = spec_outliers_upto(st, samples);
    if outs.len() > 0 {
        assert forall|bg: Seq<int>|
            #[trigger] spec_composite(a, st, samples, frame_offset, bg) == spec_composite(
                b,
                st,
                samples,
                frame_offset,
                bg,
            ) by {}
    }
}

/// The output-pixel predicate and the warning counts also depend only on
/// the configuration fields.
pub proof fn lemma_out_pixel_congruence(
    a: OutlierProcessor,
    b: OutlierProcessor,
    file: Seq<u8>,
    opt: Option<Seq<usize>>,
    channels: int,
    slice_bytes: int,
    frame_offset: int,
    buffer: Seq<u8>,
    blend: Seq<u8>,
    bb: int,
    col: int,
)
    requires
        config_eq(a, b),
    ensures
        spec_out_pixel(a, file, opt, channels, slice_bytes, frame_offset, buffer, blend, bb, col)
            == spec_out_pixel(
            b,
            file,
            opt,
            channels,
            slice_bytes,
            frame_offset,
            buffer,
            blend,
            bb,
            col,
        ),
{
    let bdata = spec_band_data(a.compression, file, opt);
    let rows = spec_band_rows(file, opt);
    let nbytes = spec_band_nbytes(a.compression, file, opt);
    let matrix = spec_matrix(bdata, nbytes, channels, rows, col);
    let off = bb * slice_bytes + col * channels;
    lemma_pixel_result_congruence(
        a,
        b,
        matrix,
        channels,
        frame_offset,
        Seq::new(channels as nat, |ch: int| buffer[off + ch] as int),
        blend[off] as int,
        spec_pixel_warn(a, matrix, channels),
    );
}

/// The warning count of one band depends only on the configuration fields.
pub proof fn lemma_band_warns_congruence(
    a: OutlierProcessor,
    b: OutlierProcessor,
    bdata: Seq<u8>,
    nbytes: int,
    channels: int,
    rows: int,
    cols: int,
)
    requires
        config_eq(a, b),
    ensures
        spec_band_warns(a, bdata, nbytes, channels, rows, cols) == spec_band_warns(
            b,
            bdata,
            nbytes,
            channels,
            rows,
            cols,
        ),
    decreases cols,
{
    if cols > 0 {
        lemma_band_warns_congruence(a, b, bdata, nbytes, channels, rows, cols - 1);
        lemma_pixel_result_congruence(
            a,
            b,
            spec_matrix(bdata, nbytes, channels, rows, cols - 1),
            channels,
            0,
            Seq::empty(),
            0,
            false,
        );
    }
}

/// The total warning count depends only on the configuration fields.
pub proof fn lemma_warns_upto_congruence(
    a: OutlierProcessor,
    b: OutlierProcessor,
    files: Seq<Vec<u8>>,
    opt: Option<Seq<usize>>,
    channels: int,
    k: int,
)
    requires
        config_eq(a, b),
    ensures
        spec_warns_upto(a, files, opt, channels, k) == spec_warns_upto(b, files, opt, channels, k),
    decreases k,
{
    if k > 0 {
        lemma_warns_upto_congruence(a, b, files, opt, channels, k - 1);
        let file = files[k - 1]@;
        let rows = spec_band_rows(file, opt);
        let nbytes = spec_band_nbytes(a.compression, file, opt);
        if rows >= 1 && nbytes >= 1 {
            lemma_band_warns_congruence(
                a,
                b,
                spec_band_data(a.compression, file, opt),
                nbytes,
                channels,
                rows,
                nbytes / channels,
            );
        }
    }
}

/// The configuration fields of two processors agree; only the random
/// generator's state may differ.
pub open spec fn config_eq(a: OutlierProcessor, b: OutlierProcessor) -> bool {
    &&& a.threshold == b.threshold
    &&& a.background == b.background
    &&& a.outlier == b.outlier
    &&& a.weights == b.weights
    &&& a.compression == b.compression
    &&& a.sample_count == b.sample_count
    &&& a.sample_indices == b.sample_indices
    &&& a.fade == b.fade
}

impl OutlierProcessor {
    /// Structural invariant: well-formed threshold and fade, a fade within
    /// the unit interval, and bounded weights.
    pub open spec fn wf(self) -> bool {
        &&& self.threshold.wf()
        &&& self.fade.wf()
        &&& self.fade.unit()
        &&& forall|ch: int|
            0 <= ch < 4 ==> -WEIGHT_LIMIT <= #[trigger] self.weights@[ch] <= WEIGHT_LIMIT
    }

    /// Creates a new image processor with the given configuration; `seed`
    /// makes the run's random choices reproducible.
    pub fn new(
        threshold: crate::options::Threshold,
        bg_mode: crate::options::BackgroundMode,
        outlier_mode: crate::options::OutlierSelectionMode,
        weights: [i64; 4],
        fade: crate::options::Fade,
        compression: crate::streams::Compression,
        sample_count: Option<usize>,
        seed: u64,
    ) -> (r: Self)
        requires
            threshold.wf(),
            fade.wf(),
            fade.unit(),
            forall|ch: int| 0 <= ch < 4 ==> -WEIGHT_LIMIT <= #[trigger] weights@[ch] <= WEIGHT_LIMIT,
        ensures
            r.wf(),
            r.threshold == threshold,
            r.background == bg_mode,
            r.outlier == outlier_mode,
            r.weights == weights,
            r.fade == fade,
            r.compression == compression,
            r.sample_count == sample_count,
            r.sample_indices@ == Seq::<usize>::empty(),
    {
        OutlierProcessor {
            threshold,
            background: bg_mode,
            outlier: outlier_mode,
            weights,
            fade,
            compression,
            sample_count,
            sample_indices: Vec::new(),
            rng: crate::rng::rng_from_seed(seed),
        }
    }

    /// The fade factor for one frame of the stack.
    pub fn fade(&self, frame: i32, total: i32, offset: i32) -> (r: i64)
        requires
            self.fade.wf(),
            -0x2000_0000 <= frame <= 0x2000_0000,
            -0x2000_0000 <= total <= 0x2000_0000,
            -0x2000_0000 <= offset <= 0x2000_0000,
        ensures
            r == spec_fade_for(self.fade, frame as int, total as int, offset as int),
    {
        if self.fade.absolute() {
            self.fade.get(offset + frame)
        } else {
            self.fade.get(total - frame - 1)
        }
    }

    /// Returns the first index in `0..samples` that does not appear in the
    /// outliers, with a warning flag instead where every frame is an
    /// outlier (the selection then falls back to frame 0).
    fn first_excluded(outliers: &Vec<(usize, i64)>, samples: usize) -> (r: (usize, bool))
        requires
            samples >= 1,
            outliers@.len() <= samples,
            forall|j: int| 0 <= j < outliers@.len() ==> (#[trigger] outliers@[j]).0 < samples,
            forall|j1: int, j2: int|
                0 <= j1 < j2 < outliers@.len() ==> outliers@[j1].0 < outliers@[j2].0,
        ensures
            outliers@.len() == samples ==> r == (0usize, true),
            outliers@.len() < samples ==> {
                &&& r.1 == false
                &&& r.0 < samples
                &&& forall|j: int| 0 <= j < outliers@.len() ==> (#[trigger] outliers@[j]).0 != r.0
                &&& forall|k: int| 0 <= k < r.0 ==> #[trigger] spec_holds_index(outliers@, k)
            },
    {
        let len = outliers.len();
        if len == samples {
            return (0, true);
        }
        let mut i: usize = 0;
        while i < samples
            invariant
                samples >= 1,
                outliers@.len() < samples,
                len == outliers@.len(),
                forall|j: int| 0 <= j < outliers@.len() ==> (#[trigger] outliers@[j]).0 < samples,
                forall|j1: int, j2: int|
                    0 <= j1 < j2 < outliers@.len() ==> outliers@[j1].0 < outliers@[j2].0,
                i <= samples,
                i <= len,
                forall|j: int| 0 <= j < i ==> (#[trigger] outliers@[j]).0 == j,
            decreases samples - i,
        {
            if i < len && outliers[i].0 == i {
                i = i + 1;
            } else {
                proof {
                    assert forall|j: int| 0 <= j < outliers@.len() implies (#[trigger] outliers@[j]).0 != i by {
                        if j < i {
                            assert(outliers@[j].0 == j);
                        } else if j > i as int {
                            if i < len {
                                assert(outliers@[i as int].0 < outliers@[j].0);
                                assert(outliers@[i as int].0 != i);
                                assert(outliers@[i as int].0 >= i) by {
                                    if i > 0 {
                                        assert(outliers@[i as int - 1].0 < outliers@[i as int].0);
                                    }
                                };
                            }
                        } else {
                            if i < len {
                                assert(outliers@[i as int].0 != i);
                            }
                        }
                    }
                    assert forall|k: int| 0 <= k < i implies #[trigger] spec_holds_index(
                        outliers@,
                        k,
                    ) by {
                        assert(outliers@[k].0 == k);
                    }
                }
                return (i, false);
            }
        }
        proof {
            assert(false);
        }
        (0, false)
    }

    /// Returns a random index in `0..samples` that does not appear in the
    /// outliers, with a warning flag instead where every frame is an
    /// outlier (the selection then falls over all frames).
    fn sample_excluded(&mut self, outliers: &Vec<(usize, i64)>, samples: usize) -> (r: (
        usize,
        bool,
    ))
        requires
            samples >= 1,
            outliers@.len() <= samples,
            forall|j: int| 0 <= j < outliers@.len() ==> (#[trigger] outliers@[j]).0 < samples,
            forall|j1: int, j2: int|
                0 <= j1 < j2 < outliers@.len() ==> outliers@[j1].0 < outliers@[j2].0,
        ensures
            config_eq(*final(self), *old(self)),
            r.0 < samples,
            outliers@.len() == samples ==> r.1 == true,
            outliers@.len() < samples ==> {
                &&& r.1 == false
                &&& forall|j: int| 0 <= j < outliers@.len() ==> (#[trigger] outliers@[j]).0 != r.0
            },
    {
        let len = outliers.len();
        if len == samples {
            return (crate::rng::gen_index(&mut self.rng, samples), true);
        }
        let mut candidates: Vec<usize> = Vec::new();
        let mut i: usize = 0;
        let mut excl: usize = 0;
        while i < samples
            invariant
                samples >= 1,
                outliers@.len() < samples,
                len == outliers@.len(),
                forall|j: int| 0 <= j < outliers@.len() ==> (#[trigger] outliers@[j]).0 < samples,
                forall|j1: int, j2: int|
                    0 <= j1 < j2 < outliers@.len() ==> outliers@[j1].0 < outliers@[j2].0,
                i <= samples,
                excl <= len,
                excl <= i,
                candidates@.len() == i - excl,
                forall|j: int| 0 <= j < excl ==> (#[trigger] outliers@[j]).0 < i,
                forall|j: int| excl <= j < len ==> (#[trigger] outliers@[j]).0 >= i,
                forall|c: int, j: int|
                    0 <= c < candidates@.len() && 0 <= j < outliers@.len() ==> (
                    #[trigger] outliers@[j]).0 != #[trigger] candidates@[c],
                forall|c: int| 0 <= c < candidates@.len() ==> #[trigger] candidates@[c] < samples,
            decreases samples - i,
        {
            if excl < len && outliers[excl].0 == i {
                excl = excl + 1;
            } else {
                proof {
                    assert forall|j: int| 0 <= j < outliers@.len() implies (#[trigger] outliers@[j]).0 != i by {
                        if j < excl {
                        } else {
                            assert(outliers@[j].0 >= i);
                            if j > excl && excl < len {
                                assert(outliers@[excl as int].0 < outliers@[j].0);
                            }
                        }
                    }
                }
                candidates.push(i);
            }
            i = i + 1;
        }
        proof {
            assert(candidates@.len() == samples - excl >= samples - len);
        }
        let pick = crate::rng::gen_index(&mut self.rng, candidates.len());
        (candidates[pick], false)
    }

    /// Computes one output pixel from its sample matrix: estimates the
    /// per-channel centers and scales over the sub-sample, finds the outlier
    /// frames over the full stack, fills the pixel with the configured
    /// background, blends the outliers in per the outlier selection mode,
    /// and returns the blend byte and the all-outliers warning flag.
    #[verifier::rlimit(100)]
    #[verifier::spinoff_prover]
    pub fn calc_pixel(&mut self, pixel_data: &Vec<u8>, pixel: &mut Vec<u8>, frame_offset: i32) -> (r:
        (u8, bool))
        requires
            old(self).wf(),
            1 <= old(pixel)@.len() <= 4,
            pixel_data@.len() as int % (old(pixel)@.len() as int) == 0,
            1 <= pixel_data@.len() as int / (old(pixel)@.len() as int) <= 0x2000_0000,
            pixel_data@.len() <= usize::MAX - 4,
            1 <= old(self).sample_indices@.len() <= 0x1000_0000,
            !old(self).threshold.absolute ==> old(self).sample_indices@.len() >= 3,
            forall|k: int|
                0 <= k < old(self).sample_indices@.len() ==> (#[trigger] old(
                    self,
                ).sample_indices@[k]) < pixel_data@.len() as int / (old(pixel)@.len() as int),
            -0x2000_0000 <= frame_offset <= 0x2000_0000,
        ensures
            final(pixel)@.len() == old(pixel)@.len(),
            config_eq(*final(self), *old(self)),
            final(self).wf(),
            spec_pixel_result(
                *old(self),
                pixel_data@,
                old(pixel)@.len() as int,
                frame_offset as int,
                final(pixel)@.map_values(|b: u8| b as int),
                r.0 as int,
                r.1,
            ),
            r.1 == spec_pixel_warn(*old(self), pixel_data@, old(pixel)@.len() as int),
    {
        let channels = pixel.len();
        let samples = pixel_data.len() / channels;
        proof {
            vstd::arithmetic::div_mod::lemma_fundamental_div_mod(
                pixel_data@.len() as int,
                channels as int,
            );
            assert(samples as int * channels == pixel_data@.len()) by (nonlinear_arith)
                requires
                    pixel_data@.len() as int == (channels as int) * (samples as int) + (
                    pixel_data@.len() as int % (channels as int)),
                    pixel_data@.len() as int % (channels as int) == 0,
                    samples as int == pixel_data@.len() as int / (channels as int);
            assert forall|k: int|
                0 <= k < self.sample_indices@.len() implies (#[trigger] self.sample_indices@[k])
                as int * channels + channels <= pixel_data@.len() by {
                assert((self.sample_indices@[k] as int + 1) * (channels as int) <= samples as int
                    * (channels as int)) by (nonlinear_arith)
                    requires
                        self.sample_indices@[k] as int + 1 <= samples as int,
                        0 < channels,
                ;
                assert((self.sample_indices@[k] as int + 1) * (channels as int)
                    == self.sample_indices@[k] as int * (channels as int) + channels as int)
                    by (nonlinear_arith);
            }
        }
        let absolute = self.threshold.absolute();
        let (meds, iqrs) = compute_stats(
            pixel_data,
            channels,
            &self.sample_indices,
            &self.weights,
            absolute,
        );
        let m = self.threshold.min();
        proof {
            assert(0 <= m * m <= 4_000_000_000_000_000_000i64 as int) by (nonlinear_arith)
                requires
                    0 <= m <= 2_000_000_000i64 as int;
        }
        let thr_sq = m * m / SCALE;
        proof {
            vstd::arithmetic::div_mod::lemma_div_pos_is_pos(m as int * m, 10000);
        }
        let (outliers, max_idx, max_dsq) = find_outliers(
            pixel_data,
            channels,
            samples,
            &self.weights,
            absolute,
            &meds,
            &iqrs,
            thr_sq,
        );
        let ghost st = spec_stats_for(*old(self), pixel_data@, channels as int);
        let ghost outs = spec_outliers_upto(st, samples as int);
        proof {
            lemma_outliers_props(st, samples as int);
            assert(outliers@.map_values(|p: (usize, i64)| p.0 as int) =~= outs);
        }
        let num_outliers = outliers.len();
        let has_outliers = num_outliers > 0;
        let mut has_warning = false;

        let bg_mode = self.background;
        match bg_mode {
            crate::options::BackgroundMode::Average => {
                fill_average(pixel, pixel_data, channels, samples, &outliers);
                proof {
                    assert(pixel@.map_values(|b: u8| b as int) =~= spec_avg_bg(
                        st,
                        samples as int,
                    ));
                }
            },
            crate::options::BackgroundMode::Median => {
                fill_median(pixel, &meds);
                proof {
                    assert(pixel@.map_values(|b: u8| b as int) =~= spec_median_bg(st));
                }
            },
            crate::options::BackgroundMode::First => {
                let bi: usize;
                if !has_outliers {
                    bi = 0;
                } else {
                    let (sel, warn) = Self::first_excluded(&outliers, samples);
                    bi = sel;
                    has_warning = warn;
                    proof {
                        if outliers@.len() < samples {
                            assert(!spec_is_outlier(st, bi as int)) by {
                                if outs.contains(bi as int) {
                                    let j = choose|j: int|
                                        0 <= j < outs.len() && outs[j] == bi as int;
                                    assert(outliers@[j].0 == bi);
                                }
                            };
                            assert forall|q: int| 0 <= q < bi implies spec_is_outlier(st, q) by {
                                assert(spec_holds_index(outliers@, q));
                                let j = choose|j: int|
                                    0 <= j < outliers@.len() && (#[trigger] outliers@[j]).0 == q;
                                assert(outs[j] == q);
                                assert(outs.contains(q));
                            }
                        }
                        assert(spec_first_bg_index(st, samples as int, bi as int));
                    }
                }
                proof {
                    assert((bi as int + 1) * (channels as int) <= samples as int * (channels as int))
                        by (nonlinear_arith)
                        requires
                            bi as int + 1 <= samples as int,
                            0 < channels,
                    ;
                }
                copy_row(pixel, pixel_data, channels, bi);
                proof {
                    assert(pixel@.map_values(|b: u8| b as int) =~= spec_row(
                        pixel_data@,
                        channels as int,
                        bi as int,
                    ));
                }
            },
            crate::options::BackgroundMode::Random => {
                let bi: usize;
                if !has_outliers {
                    bi = crate::rng::gen_index(&mut self.rng, samples);
                } else {
                    let (sel, warn) = self.sample_excluded(&outliers, samples);
                    bi = sel;
                    has_warning = warn;
                    proof {
                        if outliers@.len() < samples {
                            assert(!spec_is_outlier(st, bi as int)) by {
                                if outs.contains(bi as int) {
                                    let j = choose|j: int|
                                        0 <= j < outs.len() && outs[j] == bi as int;
                                    assert(outliers@[j].0 == bi);
                                }
                            };
                        }
                        assert(spec_random_bg_index(st, samples as int, bi as int));
                    }
                }
                proof {
                    assert((bi as int + 1) * (channels as int) <= samples as int * (channels as int))
                        by (nonlinear_arith)
                        requires
                            bi as int + 1 <= samples as int,
                            0 < channels,
                    ;
                }
                copy_row(pixel, pixel_data, channels, bi);
                proof {
                    assert(pixel@.map_values(|b: u8| b as int) =~= spec_row(
                        pixel_data@,
                        channels as int,
                        bi as int,
                    ));
                }
            },
        }
        let ghost bgseq = pixel@.map_values(|b: u8| b as int);

        if !has_outliers {
            return (0, false);
        }

        let byte: u8;
        if num_outliers == 1 {
            let (sidx, sdsq) = outliers[0];
            let dist = dist_of(sdsq);
            proof {
                assert((sidx as int + 1) * (channels as int) <= samples as int * (channels as int))
                    by (nonlinear_arith)
                    requires
                        sidx as int + 1 <= samples as int,
                        0 < channels,
                ;
                assert((sidx as int + 1) * (channels as int) == sidx as int * (channels as int)
                    + channels as int) by (nonlinear_arith);
            }
            let start = sidx * channels;
            let sample: &[u8] = &pixel_data.as_slice()[start..start + channels];
            proof {
                assert(sample@.map_values(|b: u8| b as int) =~= spec_row(
                    pixel_data@,
                    channels as int,
                    sidx as int,
                ));
            }
            byte = apply_single(
                &self.fade,
                &self.threshold,
                pixel,
                sample,
                sidx,
                dist,
                samples,
                frame_offset,
            );
            proof {
                assert(pixel@.map_values(|b: u8| b as int) =~= spec_composite(
                    *old(self),
                    st,
                    samples as int,
                    frame_offset as int,
                    bgseq,
                ).0);
            }
        } else {
            let mode = self.outlier;
            match mode {
                crate::options::OutlierSelectionMode::AllForward
                | crate::options::OutlierSelectionMode::AllBackward => {
                    let forward = match mode {
                        crate::options::OutlierSelectionMode::AllForward => true,
                        _ => false,
                    };
                    let ghost ordered = if forward {
                        outs
                    } else {
                        outs.reverse()
                    };
                    let mut pixf: Vec<i64> = Vec::new();
                    let mut ch: usize = 0;
                    while ch < channels
                        invariant
                            pixel@.len() == channels,
                            ch <= channels,
                            pixf@.len() == ch,
                            forall|c: int|
                                0 <= c < ch ==> #[trigger] pixf@[c] == pixel@[c] as int * SCALE,
                            forall|c: int| 0 <= c < ch ==> 0 <= #[trigger] pixf@[c] <= 255 * SCALE,
                        decreases channels - ch,
                    {
                        pixf.push(pixel[ch] as i64 * SCALE);
                        ch = ch + 1;
                    }
                    let ghost acc0 = (
                        Seq::new(bgseq.len(), |c: int| bgseq[c] * (SCALE as int)),
                        SCALE as int,
                    );
                    proof {
                        assert(pixf@.map_values(|v: i64| v as int) =~= acc0.0);
                    }
                    let mut binv: i64 = SCALE;
                    let mut cnt: usize = 0;
                    while cnt < num_outliers
                        invariant
                            self.wf(),
                            config_eq(*self, *old(self)),
                            st == spec_stats_for(*old(self), pixel_data@, channels as int),
                            outs == spec_outliers_upto(st, samples as int),
                            ordered == if forward {
                                outs
                            } else {
                                outs.reverse()
                            },
                            num_outliers == outliers@.len(),
                            num_outliers == outs.len(),
                            outs.len() <= samples,
                            1 <= channels <= 4,
                            samples as int * channels == pixel_data@.len(),
                            1 <= samples <= 0x2000_0000,
                            pixel_data@.len() <= usize::MAX - 4,
                            -0x2000_0000 <= frame_offset <= 0x2000_0000,
                            forall|j: int|
                                0 <= j < outliers@.len() ==> (#[trigger] outliers@[j]).0 as int
                                    == outs[j] && outliers@[j].1 as int == spec_dsq(st, outs[j]),
                            forall|j: int|
                                0 <= j < outliers@.len() ==> (#[trigger] outliers@[j]).0 < samples,
                            forall|j: int|
                                0 <= j < outliers@.len() ==> 0 <= (#[trigger] outliers@[j]).1
                                    <= DIST_SQ_LIMIT,
                            cnt <= num_outliers,
                            pixf@.len() == channels,
                            forall|c: int| 0 <= c < channels ==> 0 <= #[trigger] pixf@[c] <= 255 * SCALE,
                            0 <= binv <= SCALE,
                            (
                                pixf@.map_values(|v: i64| v as int),
                                binv as int,
                            ) == spec_all_fold(
                                old(self).fade,
                                old(self).threshold,
                                st,
                                samples as int,
                                frame_offset as int,
                                ordered.subrange(0, cnt as int),
                                acc0,
                            ),
                        decreases num_outliers - cnt,
                    {
                        let j = if forward {
                            cnt
                        } else {
                            num_outliers - 1 - cnt
                        };
                        let (oidx, odsq) = outliers[j];
                        proof {
                            assert(ordered[cnt as int] == oidx as int);
                        }
                        let dist = dist_of(odsq);
                        let fade_v = self.fade(oidx as i32, samples as i32, frame_offset);
                        proof {
                            crate::options::lemma_fade_unit_bounds(
                                self.fade,
                                if self.fade.absolute {
                                    frame_offset as int + oidx as int
                                } else {
                                    samples as int - oidx as int - 1
                                },
                            );
                        }
                        let bv = self.threshold.blend_value(dist);
                        proof {
                            assert(0 <= fade_v * bv <= 100_000_000) by (nonlinear_arith)
                                requires
                                    0 <= fade_v <= 10000,
                                    0 <= bv <= 10000;
                        }
                        let blend = div_trunc(fade_v * bv, SCALE);
                        proof {
                            crate::fixed::lemma_div_trunc_scaled(
                                fade_v as int,
                                bv as int,
                                SCALE as int,
                            );
                            assert(fade_v as int * (bv as int) == bv as int * (fade_v as int))
                                by (nonlinear_arith);
                            assert(blend <= 10000) by {
                                crate::fixed::lemma_div_trunc_scaled(
                                    bv as int,
                                    fade_v as int,
                                    SCALE as int,
                                );
                            };
                            assert((oidx as int + 1) * (channels as int) <= samples as int * (
                            channels as int)) by (nonlinear_arith)
                                requires
                                    oidx as int + 1 <= samples as int,
                                    0 < channels,
                            ;
                            assert((oidx as int + 1) * (channels as int) == oidx as int * (
                            channels as int) + channels as int) by (nonlinear_arith);
                        }
                        let start = oidx * channels;
                        let sample: &[u8] = &pixel_data.as_slice()[start..start + channels];
                        let ghost pixf0 = pixf@;
                        blend_into_fixed_u8(&mut pixf, sample, blend);
                        proof {
                            vstd::arithmetic::div_mod::lemma_div_pos_is_pos(
                                binv as int * (10000 - blend as int),
                                10000,
                            );
                            assert(0 <= binv as int * (10000 - blend as int) <= 100_000_000)
                                by (nonlinear_arith)
                                requires
                                    0 <= binv <= 10000,
                                    0 <= blend <= 10000;
                            vstd::arithmetic::div_mod::lemma_div_is_ordered(
                                binv as int * (10000 - blend as int),
                                100_000_000,
                                10000,
                            );
                        }
                        let binv0 = binv;
                        binv = binv * (SCALE - blend) / SCALE;
                        proof {
                            lemma_all_fold_snoc(
                                old(self).fade,
                                old(self).threshold,
                                st,
                                samples as int,
                                frame_offset as int,
                                ordered.subrange(0, cnt as int),
                                ordered[cnt as int],
                                acc0,
                            );
                            assert(ordered.subrange(0, cnt as int).push(ordered[cnt as int])
                                =~= ordered.subrange(0, cnt as int + 1));
                            let step = spec_all_step(
                                old(self).fade,
                                old(self).threshold,
                                st,
                                samples as int,
                                frame_offset as int,
                                (pixf0.map_values(|v: i64| v as int), binv0 as int),
                                ordered[cnt as int],
                            );
                            assert(sample@ =~= pixel_data@.subrange(
                                start as int,
                                start as int + channels as int,
                            ));
                            assert(pixf@.map_values(|v: i64| v as int) =~= step.0);
                        }
                        cnt = cnt + 1;
                    }
                    proof {
                        assert(ordered.subrange(0, num_outliers as int) =~= ordered);
                    }
                    let mut ch2: usize = 0;
                    while ch2 < channels
                        invariant
                            pixel@.len() == channels,
                            pixf@.len() == channels,
                            forall|c: int| 0 <= c < channels ==> 0 <= #[trigger] pixf@[c] <= 255 * SCALE,
                            ch2 <= channels,
                            forall|c: int|
                                0 <= c < ch2 ==> pixel@[c] as int == crate::fixed::spec_round_to_int(
                                    pixf@[c] as int,
                                ),
                        decreases channels - ch2,
                    {
                        let v = crate::fixed::round_to_int(pixf[ch2]);
                        pixel[ch2] = v as u8;
                        ch2 = ch2 + 1;
                    }
                    let b = ((SCALE - binv) * 255 + crate::fixed::HALF_SCALE) / SCALE;
                    proof {
                        vstd::arithmetic::div_mod::lemma_div_pos_is_pos(
                            (10000 - binv as int) * 255 + 5000,
                            10000,
                        );
                        assert(pixel@.map_values(|b0: u8| b0 as int) =~= spec_composite(
                            *old(self),
                            st,
                            samples as int,
                            frame_offset as int,
                            bgseq,
                        ).0);
                    }
                    byte = b as u8;
                },
                crate::options::OutlierSelectionMode::Average => {
                    let k = num_outliers;
                    let mut tmp: Vec<u8> = Vec::new();
                    let mut ch: usize = 0;
                    while ch < channels
                        invariant
                            1 <= channels <= 4,
                            samples as int * channels == pixel_data@.len(),
                            1 <= samples <= 0x2000_0000,
                            pixel_data@.len() <= usize::MAX - 4,
                            st == spec_stats_for(*old(self), pixel_data@, channels as int),
                            outs == spec_outliers_upto(st, samples as int),
                            k == outliers@.len(),
                            k == outs.len(),
                            2 <= k <= samples,
                            forall|j: int|
                                0 <= j < outliers@.len() ==> (#[trigger] outliers@[j]).0 as int
                                    == outs[j],
                            forall|j: int|
                                0 <= j < outliers@.len() ==> (#[trigger] outliers@[j]).0 < samples,
                            ch <= channels,
                            tmp@.len() == ch,
                            forall|c: int|
                                0 <= c < ch ==> #[trigger] tmp@[c] as int
                                    == crate::fixed::spec_round_to_int(
                                    spec_outlier_chan_sum(st.data, st.channels, c, outs) * (
                                    SCALE as int) / (k as int),
                                ),
                        decreases channels - ch,
                    {
                        let mut osum: i64 = 0;
                        let mut j: usize = 0;
                        while j < k
                            invariant
                                1 <= channels <= 4,
                                ch < channels,
                                samples as int * channels == pixel_data@.len(),
                                1 <= samples <= 0x2000_0000,
                                pixel_data@.len() <= usize::MAX - 4,
                                st.data == pixel_data@,
                                st.channels == channels as int,
                                k == outliers@.len(),
                                k == outs.len(),
                                2 <= k <= samples,
                                forall|q: int|
                                    0 <= q < outliers@.len() ==> (#[trigger] outliers@[q]).0 as int
                                        == outs[q],
                                forall|q: int|
                                    0 <= q < outliers@.len() ==> (#[trigger] outliers@[q]).0
                                        < samples,
                                j <= k,
                                osum == spec_outlier_chan_sum(
                                    st.data,
                                    st.channels,
                                    ch as int,
                                    outs.subrange(0, j as int),
                                ),
                                0 <= osum <= 255 * (j as i64),
                            decreases k - j,
                        {
                            let idx = outliers[j].0;
                            proof {
                                assert(idx as int * (channels as int) + channels as int
                                    <= pixel_data@.len()) by (nonlinear_arith)
                                    requires
                                        idx as int + 1 <= samples as int,
                                        samples as int * (channels as int) == pixel_data@.len(),
                                        1 <= channels,
                                        0 <= idx;
                                assert(outs.subrange(0, j + 1).drop_last() =~= outs.subrange(
                                    0,
                                    j as int,
                                ));
                                assert(outs.subrange(0, j + 1).last() == idx as int);
                            }
                            osum = osum + pixel_data[idx * channels + ch] as i64;
                            j = j + 1;
                        }
                        proof {
                            assert(outs.subrange(0, k as int) =~= outs);
                            assert(osum as int * 10000 <= 255 * 0x2000_0000i64 as int * 10000)
                                by (nonlinear_arith)
                                requires
                                    0 <= osum as int <= 255 * 0x2000_0000i64 as int;
                            vstd::arithmetic::div_mod::lemma_div_pos_is_pos(
                                osum as int * 10000,
                                k as int,
                            );
                            assert(osum as int <= 255 * (k as int));
                            assert(osum as int * 10000 <= (k as int) * 2_550_000)
                                by (nonlinear_arith)
                                requires
                                    osum as int <= 255 * (k as int);
                            vstd::arithmetic::div_mod::lemma_div_is_ordered(
                                osum as int * 10000,
                                (k as int) * 2_550_000,
                                k as int,
                            );
                            vstd::arithmetic::div_mod::lemma_div_multiples_vanish(
                                2_550_000,
                                k as int,
                            );
                        }
                        let mval = osum * SCALE / k as i64;
                        let v = crate::fixed::round_to_int(mval);
                        tmp.push(v as u8);
                        ch = ch + 1;
                    }
                    let mut dsum: i64 = 0;
                    let mut j: usize = 0;
                    while j < k
                        invariant
                            st == spec_stats_for(*old(self), pixel_data@, channels as int),
                            outs == spec_outliers_upto(st, samples as int),
                            k == outliers@.len(),
                            k == outs.len(),
                            2 <= k <= samples,
                            samples <= 0x2000_0000,
                            forall|q: int|
                                0 <= q < outliers@.len() ==> (#[trigger] outliers@[q]).0 as int
                                    == outs[q] && outliers@[q].1 as int == spec_dsq(st, outs[q]),
                            forall|q: int|
                                0 <= q < outliers@.len() ==> 0 <= (#[trigger] outliers@[q]).1
                                    <= DIST_SQ_LIMIT,
                            j <= k,
                            dsum == spec_dist_sum(st, outs.subrange(0, j as int)),
                            0 <= dsum <= 400_000_000 * (j as i64),
                        decreases k - j,
                    {
                        let odsq = outliers[j].1;
                        proof {
                            assert(outs.subrange(0, j + 1).drop_last() =~= outs.subrange(
                                0,
                                j as int,
                            ));
                            assert(outs.subrange(0, j + 1).last() == outs[j as int]);
                        }
                        let d = dist_of(odsq);
                        dsum = dsum + d;
                        j = j + 1;
                    }
                    proof {
                        assert(outs.subrange(0, k as int) =~= outs);
                        vstd::arithmetic::div_mod::lemma_div_pos_is_pos(dsum as int, k as int);
                        assert(dsum as int <= (k as int) * 400_000_000) by (nonlinear_arith)
                            requires
                                dsum as int <= 400_000_000 * (k as int);
                        vstd::arithmetic::div_mod::lemma_div_is_ordered(
                            dsum as int,
                            (k as int) * 400_000_000,
                            k as int,
                        );
                        vstd::arithmetic::div_mod::lemma_div_multiples_vanish(
                            400_000_000,
                            k as int,
                        );
                    }
                    let dist = dsum / k as i64;
                    byte = apply_single(
                        &self.fade,
                        &self.threshold,
                        pixel,
                        tmp.as_slice(),
                        0,
                        dist,
                        samples,
                        frame_offset,
                    );
                    proof {
                        assert(tmp@.map_values(|b0: u8| b0 as int) =~= Seq::new(
                            st.channels as nat,
                            |c: int|
                                crate::fixed::spec_round_to_int(
                                    spec_outlier_chan_sum(st.data, st.channels, c, outs) * (
                                    SCALE as int) / (outs.len() as int),
                                ),
                        ));
                        assert(pixel@.map_values(|b0: u8| b0 as int) =~= spec_composite(
                            *old(self),
                            st,
                            samples as int,
                            frame_offset as int,
                            bgseq,
                        ).0);
                    }
                },
                _ => {
                    let sidx: usize;
                    let sdsq: i64;
                    match mode {
                        crate::options::OutlierSelectionMode::First => {
                            let (a, b) = outliers[0];
                            sidx = a;
                            sdsq = b;
                        },
                        crate::options::OutlierSelectionMode::Last => {
                            let (a, b) = outliers[num_outliers - 1];
                            sidx = a;
                            sdsq = b;
                        },
                        _ => {
                            sidx = max_idx;
                            sdsq = max_dsq;
                        },
                    }
                    let dist = dist_of(sdsq);
                    proof {
                        assert((sidx as int + 1) * (channels as int) <= samples as int * (
                        channels as int)) by (nonlinear_arith)
                            requires
                                sidx as int + 1 <= samples as int,
                                0 < channels,
                        ;
                        assert((sidx as int + 1) * (channels as int) == sidx as int * (
                        channels as int) + channels as int) by (nonlinear_arith);
                    }
                    let start = sidx * channels;
                    let sample: &[u8] = &pixel_data.as_slice()[start..start + channels];
                    proof {
                        assert(sample@.map_values(|b0: u8| b0 as int) =~= spec_row(
                            pixel_data@,
                            channels as int,
                            sidx as int,
                        ));
                    }
                    byte = apply_single(
                        &self.fade,
                        &self.threshold,
                        pixel,
                        sample,
                        sidx,
                        dist,
                        samples,
                        frame_offset,
                    );
                    proof {
                        assert(pixel@.map_values(|b0: u8| b0 as int) =~= spec_composite(
                            *old(self),
                            st,
                            samples as int,
                            frame_offset as int,
                            bgseq,
                        ).0);
                    }
                },
            }
        }
        (byte, has_warning)
    }


    /// Composites every output column of one band into the output rasters:
    /// column `col` of band `b` lands at byte offset `b * slice_bytes +
    /// col * channels`. Bytes outside the band's range stay unchanged.
    /// Returns the number of all-outlier warnings raised.
    fn process_band(
        &mut self,
        buffer: &mut Vec<u8>,
        blend: &mut Vec<u8>,
        data: &Vec<u8>,
        num_rows: usize,
        num_bytes: usize,
        channels: usize,
        slice_bytes: usize,
        b: usize,
        frame_offset: i32,
        Ghost(file): Ghost<Seq<u8>>,
        Ghost(opt): Ghost<Option<Seq<usize>>>,
    ) -> (w: usize)
        requires
            old(self).wf(),
            1 <= old(self).sample_indices@.len() <= 0x1000_0000,
            !old(self).threshold.absolute ==> old(self).sample_indices@.len() >= 3,
            forall|k: int|
                0 <= k < old(self).sample_indices@.len() ==> #[trigger] old(
                    self,
                ).sample_indices@[k] < num_rows,
            1 <= channels <= 4,
            data@ == spec_band_data(old(self).compression, file, opt),
            num_rows == spec_band_rows(file, opt),
            num_bytes == spec_band_nbytes(old(self).compression, file, opt),
            1 <= num_rows <= 0x1000_0000,
            1 <= num_bytes <= slice_bytes <= 0x4000_0000,
            data@.len() == num_rows * num_bytes,
            old(buffer)@.len() == old(blend)@.len(),
            b as int * slice_bytes + num_bytes <= old(buffer)@.len(),
            b <= 0x4000_0000,
            -0x2000_0000 <= frame_offset <= 0x2000_0000,
        ensures
            final(buffer)@.len() == old(buffer)@.len(),
            final(blend)@.len() == old(blend)@.len(),
            config_eq(*final(self), *old(self)),
            final(self).wf(),
            forall|k: int|
                0 <= k < old(buffer)@.len() && !(b as int * slice_bytes <= k < b as int
                    * slice_bytes + (num_bytes as int / channels as int) * channels)
                    ==> final(buffer)@[k] == old(buffer)@[k] && final(blend)@[k] == old(
                    blend,
                )@[k],
            forall|col: int|
                0 <= col < num_bytes as int / channels as int ==> #[trigger] spec_out_pixel(
                    *old(self),
                    file,
                    opt,
                    channels as int,
                    slice_bytes as int,
                    frame_offset as int,
                    final(buffer)@,
                    final(blend)@,
                    b as int,
                    col,
                ),
            w == spec_band_warns(
                *old(self),
                data@,
                num_bytes as int,
                channels as int,
                num_rows as int,
                num_bytes as int / channels as int,
            ),
            w <= num_bytes,
    {
        let cols = num_bytes / channels;
        proof {
            vstd::arithmetic::div_mod::lemma_fundamental_div_mod(
                num_bytes as int,
                channels as int,
            );
            vstd::arithmetic::div_mod::lemma_mod_bound(num_bytes as int, channels as int);
            vstd::arithmetic::div_mod::lemma_div_is_ordered_by_denominator(
                num_bytes as int,
                1,
                channels as int,
            );
            vstd::arithmetic::div_mod::lemma_div_basics(num_bytes as int);
        }
        let buffer_len = buffer.len();
        let data_len = data.len();
        let base = b * slice_bytes;
        let mut pixel: Vec<u8> = vec![0u8; channels];
        let mut w: usize = 0;
        let mut col: usize = 0;
        while col < cols
            invariant
                old(self).wf(),
                1 <= old(self).sample_indices@.len() <= 0x1000_0000,
                !old(self).threshold.absolute ==> old(self).sample_indices@.len() >= 3,
                forall|k: int|
                    0 <= k < old(self).sample_indices@.len() ==> #[trigger] old(
                        self,
                    ).sample_indices@[k] < num_rows,
                config_eq(*self, *old(self)),
                self.wf(),
                1 <= channels <= 4,
                data@ == spec_band_data(old(self).compression, file, opt),
                num_rows == spec_band_rows(file, opt),
                num_bytes == spec_band_nbytes(old(self).compression, file, opt),
                1 <= num_rows <= 0x1000_0000,
                1 <= num_bytes <= slice_bytes <= 0x4000_0000,
                data@.len() == num_rows * num_bytes,
                data_len == data@.len(),
                buffer@.len() == old(buffer)@.len(),
                blend@.len() == old(blend)@.len(),
                buffer_len == buffer@.len(),
                old(buffer)@.len() == old(blend)@.len(),
                base == b as int * slice_bytes,
                base + num_bytes <= buffer@.len(),
                b <= 0x4000_0000,
                -0x2000_0000 <= frame_offset <= 0x2000_0000,
                cols == num_bytes as int / channels as int,
                cols * channels <= num_bytes,
                pixel@.len() == channels,
                col <= cols,
                w <= col,
                w == spec_band_warns(
                    *old(self),
                    data@,
                    num_bytes as int,
                    channels as int,
                    num_rows as int,
                    col as int,
                ),
                forall|k: int|
                    0 <= k < buffer@.len() && !(base <= k < base + col * channels)
                        ==> #[trigger] buffer@[k] == old(buffer)@[k] && blend@[k] == old(
                        blend,
                    )@[k],
                forall|c: int|
                    0 <= c < col ==> #[trigger] spec_out_pixel(
                        *old(self),
                        file,
                        opt,
                        channels as int,
                        slice_bytes as int,
                        frame_offset as int,
                        buffer@,
                        blend@,
                        b as int,
                        c,
                    ),
            decreases cols - col,
        {
            proof {
                assert((col as int + 1) * (channels as int) <= cols as int * (channels as int))
                    by (nonlinear_arith)
                    requires
                        col as int + 1 <= cols as int,
                        0 < channels;
                assert((col as int + 1) * (channels as int) == col as int * (channels as int)
                    + channels as int) by (nonlinear_arith);
            }
            let mut pixel_data: Vec<u8> = Vec::new();
            let mut row: usize = 0;
            while row < num_rows
                invariant
                    1 <= channels <= 4,
                    1 <= num_rows <= 0x1000_0000,
                    1 <= num_bytes <= 0x4000_0000,
                    data@.len() == num_rows * num_bytes,
                    data_len == data@.len(),
                    col as int * channels + channels <= num_bytes,
                    row <= num_rows,
                    pixel_data@.len() == row * channels,
                    forall|i: int|
                        0 <= i < pixel_data@.len() ==> #[trigger] pixel_data@[i] == data@[(i
                            / (channels as int)) * num_bytes + col * channels + (i % (
                        channels as int))],
                decreases num_rows - row,
            {
                let mut ch: usize = 0;
                proof {
                    assert(row as int * (num_bytes as int) + num_bytes as int <= num_rows as int
                        * (num_bytes as int)) by (nonlinear_arith)
                        requires
                            row as int + 1 <= num_rows as int,
                            0 <= num_bytes as int;
                    assert(row as int * (num_bytes as int) >= 0) by (nonlinear_arith)
                        requires
                            0 <= row as int && 0 <= num_bytes as int;
                    assert(row as int * (channels as int) >= 0) by (nonlinear_arith)
                        requires
                            0 <= row as int && 0 <= channels as int;
                }
                while ch < channels
                    invariant
                        1 <= channels <= 4,
                        1 <= num_bytes,
                        data@.len() == num_rows * num_bytes,
                        data_len == data@.len(),
                        col as int * channels + channels <= num_bytes,
                        row as int * (num_bytes as int) + num_bytes as int <= num_rows as int * (
                        num_bytes as int),
                        row as int * (num_bytes as int) >= 0,
                        row as int * (channels as int) >= 0,
                        row < num_rows,
                        ch <= channels,
                        pixel_data@.len() == row * channels + ch,
                        forall|i: int|
                            0 <= i < pixel_data@.len() ==> #[trigger] pixel_data@[i] == data@[(i
                                / (channels as int)) * num_bytes + col * channels + (i % (
                            channels as int))],
                    decreases channels - ch,
                {
                    proof {
                        assert(row as int * (num_bytes as int) + col as int * (channels as int)
                            + ch < data@.len());
                        vstd::arithmetic::div_mod::lemma_fundamental_div_mod_converse(
                            row as int * (channels as int) + ch,
                            channels as int,
                            row as int,
                            ch as int,
                        );
                    }
                    pixel_data.push(data[row * num_bytes + col * channels + ch]);
                    proof {
                        assert(row as int * (channels as int) + (ch + 1) == row as int * (
                        channels as int) + ch + 1) by (nonlinear_arith);
                    }
                    ch = ch + 1;
                }
                proof {
                    assert((row as int + 1) * (channels as int) == row as int * (channels as int)
                        + channels as int) by (nonlinear_arith);
                }
                row = row + 1;
            }
            proof {
                assert(pixel_data@.len() <= 0x4000_0000i64 as int) by (nonlinear_arith)
                    requires
                        pixel_data@.len() == (num_rows as int) * (channels as int),
                        0 <= num_rows as int <= 0x1000_0000,
                        0 <= channels as int <= 4;
                assert(pixel_data@.len() as int % (channels as int) == 0 && pixel_data@.len()
                    as int / (channels as int) == num_rows as int) by {
                    vstd::arithmetic::div_mod::lemma_mod_multiples_basic(
                        num_rows as int,
                        channels as int,
                    );
                    vstd::arithmetic::div_mod::lemma_div_by_multiple(
                        num_rows as int,
                        channels as int,
                    );
                    assert(num_rows as int * (channels as int) == channels as int * (
                    num_rows as int)) by (nonlinear_arith);
                };
                assert(pixel_data@ =~= spec_matrix(
                    data@,
                    num_bytes as int,
                    channels as int,
                    num_rows as int,
                    col as int,
                ));
            }
            let ghost selfpre = *self;
            let (blendbyte, warning) = self.calc_pixel(&pixel_data, &mut pixel, frame_offset);
            proof {
                lemma_pixel_result_congruence(
                    selfpre,
                    *old(self),
                    pixel_data@,
                    channels as int,
                    frame_offset as int,
                    pixel@.map_values(|v: u8| v as int),
                    blendbyte as int,
                    warning,
                );
            }
            if warning {
                w = w + 1;
            }
            proof {
                assert(col as int * (channels as int) + channels <= num_bytes);
            }
            let off = base + col * channels;
            let ghost buf0 = buffer@;
            let ghost bl0 = blend@;
            let mut ch2: usize = 0;
            while ch2 < channels
                invariant
                    1 <= channels <= 4,
                    buffer@.len() == buf0.len(),
                    blend@.len() == bl0.len(),
                    buffer_len == buffer@.len(),
                    pixel@.len() == channels,
                    off + channels <= buffer@.len(),
                    buffer@.len() == blend@.len(),
                    ch2 <= channels,
                    0 <= blendbyte <= 255,
                    forall|k: int|
                        0 <= k < buffer@.len() && !(off <= k < off + ch2) ==> #[trigger] buffer@[k]
                            == buf0[k],
                    forall|k: int|
                        0 <= k < blend@.len() && !(off <= k < off + ch2) ==> #[trigger] blend@[k]
                            == bl0[k],
                    forall|c: int| 0 <= c < ch2 ==> #[trigger] buffer@[off + c] == pixel@[c],
                    forall|c: int|
                        0 <= c < ch2 ==> #[trigger] blend@[off + c] as int == (if c < 3 {
                            blendbyte as int
                        } else {
                            255
                        }),
                decreases channels - ch2,
            {
                proof {
                    assert(ch2 < channels);
                    assert(off + channels <= buffer@.len());
                    assert(off + ch2 < buffer@.len());
                }
                buffer[off + ch2] = pixel[ch2];
                if ch2 < 3 {
                    blend[off + ch2] = blendbyte;
                } else {
                    blend[off + ch2] = 255;
                }
                ch2 = ch2 + 1;
            }
            proof {
                let cn = channels as int;
                let sb = slice_bytes as int;
                assert forall|c: int|
                    0 <= c < col as int + 1 implies #[trigger] spec_out_pixel(
                    *old(self),
                    file,
                    opt,
                    cn,
                    sb,
                    frame_offset as int,
                    buffer@,
                    blend@,
                    b as int,
                    c,
                ) by {
                    if c < col as int {
                        assert(spec_out_pixel(
                            *old(self),
                            file,
                            opt,
                            cn,
                            sb,
                            frame_offset as int,
                            buf0,
                            bl0,
                            b as int,
                            c,
                        ));
                        assert((c + 1) * cn <= col as int * cn) by (nonlinear_arith)
                            requires
                                c + 1 <= col as int,
                                0 < cn;
                        assert((c + 1) * cn == c * cn + cn) by (nonlinear_arith);
                        assert(c * cn + cn <= col as int * cn);
                        assert(0 <= c * cn) by (nonlinear_arith)
                            requires
                                0 <= c && 0 < cn;
                        assert forall|j: int|
                            0 <= j < cn implies #[trigger] buffer@[base + c * cn + j] == buf0[base
                            + c * cn + j] by {
                            assert(base + c * cn + j < off);
                        }
                        assert forall|j: int|
                            0 <= j < cn implies #[trigger] blend@[base + c * cn + j] == bl0[base
                            + c * cn + j] by {
                            assert(base + c * cn + j < off);
                        }
                        assert(base == b as int * sb);
                        assert forall|j: int|
                            0 <= j < cn implies #[trigger] buffer@[b as int * sb + c * cn + j]
                            == buf0[b as int * sb + c * cn + j] by {
                            assert(buffer@[base + c * cn + j] == buf0[base + c * cn + j]);
                        }
                        assert forall|j: int|
                            0 <= j < cn implies #[trigger] blend@[b as int * sb + c * cn + j]
                            == bl0[b as int * sb + c * cn + j] by {
                            assert(blend@[base + c * cn + j] == bl0[base + c * cn + j]);
                        }
                        assert(Seq::new(
                            cn as nat,
                            |j: int| buffer@[b as int * sb + c * cn + j] as int,
                        ) =~= Seq::new(cn as nat, |j: int| buf0[b as int * sb + c * cn + j] as int));
                        assert(blend@[b as int * sb + c * cn] == bl0[b as int * sb + c * cn]);
                    } else {
                        assert(c == col as int);
                        assert(base == b as int * sb);
                        assert(b as int * sb + c * cn == off);
                        assert forall|j: int|
                            0 <= j < cn implies #[trigger] buffer@[b as int * sb + c * cn + j]
                            == pixel@[j] by {
                            assert(buffer@[off + j] == pixel@[j]);
                        }
                        assert(Seq::new(
                            cn as nat,
                            |j: int| buffer@[b as int * sb + c * cn + j] as int,
                        ) =~= pixel@.map_values(|v: u8| v as int));
                        assert(blend@[off as int + 0] as int == blendbyte as int);
                        assert(blend@[b as int * sb + c * cn] as int == blendbyte as int);
                        assert forall|j: int|
                            0 <= j < cn implies (#[trigger] blend@[b as int * sb + c * cn + j])
                            as int == (if j < 3 {
                            blendbyte as int
                        } else {
                            255
                        }) by {
                            assert(blend@[off + j] as int == (if j < 3 {
                                blendbyte as int
                            } else {
                                255
                            }));
                        }
                        assert(spec_band_data((*old(self)).compression, file, opt) == data@);
                        assert(spec_band_rows(file, opt) == num_rows as int);
                        assert(spec_band_nbytes((*old(self)).compression, file, opt)
                            == num_bytes as int);
                        assert(spec_matrix(data@, num_bytes as int, cn, num_rows as int, c)
                            == pixel_data@);
                        assert(spec_pixel_result(
                            *old(self),
                            pixel_data@,
                            cn,
                            frame_offset as int,
                            pixel@.map_values(|v: u8| v as int),
                            blendbyte as int,
                            warning,
                        ));
                        assert(warning == spec_pixel_warn(*old(self), pixel_data@, cn));
                    }
                }
                assert(spec_matrix(data@, num_bytes as int, cn, num_rows as int, col as int)
                    == pixel_data@);
                assert(w as int == spec_band_warns(
                    *old(self),
                    data@,
                    num_bytes as int,
                    channels as int,
                    num_rows as int,
                    col as int + 1,
                ));
            }
            col = col + 1;
        }
        w
    }

    /// Processes images based on band files as created by the time slicer:
    /// reads each band (all chunks, or the listed frame subset), rebuilds
    /// the per-pixel sample matrices, and composites every pixel. Returns
    /// the output raster, the blend raster, and the count of pixels that
    /// consisted of only outliers.
    pub fn process(
        &mut self,
        layout: &crate::layout::RasterLayout,
        files: &Vec<Vec<u8>>,
        slices: &crate::slicer::SliceLength,
        image_indices: Option<&Vec<usize>>,
    ) -> (r: Result<(Vec<u8>, Vec<u8>, usize), ProcessError>)
        requires
            old(self).wf(),
            layout.wf(),
            slices.wf(),
            crate::slicer::spec_slice_bytes(*slices, *layout) <= 0x4000_0000,
            match image_indices {
                Some(idxs) => idxs@.len() >= 1 && idxs@[0] <= 0x2000_0000 && forall|a: int, b: int|
                    0 <= a < b < idxs@.len() ==> idxs@[a] < idxs@[b],
                None => true,
            },
            files@.len() <= 0x4000_0000,
        ensures
            final(self).wf(),
            final(self).threshold == old(self).threshold,
            final(self).background == old(self).background,
            final(self).outlier == old(self).outlier,
            final(self).weights == old(self).weights,
            final(self).compression == old(self).compression,
            final(self).fade == old(self).fade,
            final(self).sample_count == old(self).sample_count,
            r == Err::<(Vec<u8>, Vec<u8>, usize), ProcessError>(ProcessError::ChunkDecode)
                ==> exists|b: int|
                0 <= b < files@.len() && !(#[trigger] spec_band_decodes(
                    old(self).compression,
                    files@[b]@,
                    spec_opt_view(image_indices),
                )),
            r == Err::<(Vec<u8>, Vec<u8>, usize), ProcessError>(ProcessError::ChunkLengthMismatch)
                ==> exists|b: int|
                0 <= b < files@.len() && !(#[trigger] spec_band_uniform(
                    old(self).compression,
                    files@[b]@,
                    spec_opt_view(image_indices),
                )),
            (exists|b: int|
                0 <= b < files@.len() && (!(#[trigger] spec_band_decodes(
                    old(self).compression,
                    files@[b]@,
                    spec_opt_view(image_indices),
                )) || !spec_band_uniform(
                    old(self).compression,
                    files@[b]@,
                    spec_opt_view(image_indices),
                ))) ==> r is Err,
            r matches Ok(t) ==> {
                &&& t.0@.len() == layout.spec_frame_bytes()
                &&& t.1@.len() == layout.spec_frame_bytes()
            },
            r matches Ok(t) ==> exists|c: OutlierProcessor|
                {
                    &&& #[trigger] config_eq(c, *final(self))
                    &&& forall|bb: int, cc: int|
                        0 <= bb < files@.len() && spec_band_rows(
                            files@[bb]@,
                            spec_opt_view(image_indices),
                        ) >= 1 && spec_band_nbytes(
                            c.compression,
                            files@[bb]@,
                            spec_opt_view(image_indices),
                        ) >= 1 && 0 <= cc < spec_band_nbytes(
                            c.compression,
                            files@[bb]@,
                            spec_opt_view(image_indices),
                        ) / (layout.width_stride as int) ==> #[trigger] spec_out_pixel(
                            c,
                            files@[bb]@,
                            spec_opt_view(image_indices),
                            layout.width_stride as int,
                            crate::slicer::spec_slice_bytes(*slices, *layout),
                            spec_frame_offset_of(image_indices),
                            t.0@,
                            t.1@,
                            bb,
                            cc,
                        )
                    &&& t.2 as int == (if spec_warns_upto(
                        c,
                        files@,
                        spec_opt_view(image_indices),
                        layout.width_stride as int,
                        files@.len() as int,
                    ) > 0xFFFF_FFFF {
                        0xFFFF_FFFF as int
                    } else {
                        spec_warns_upto(
                            c,
                            files@,
                            spec_opt_view(image_indices),
                            layout.width_stride as int,
                            files@.len() as int,
                        )
                    })
                },
    {
        let channels = layout.width_stride;
        let total = layout.frame_bytes();
        let mut buffer: Vec<u8> = vec![0u8; total];
        let mut is_outlier: Vec<u8> = vec![0u8; total];
        let slice_bytes = slices.bytes(layout);
        let mut warnings: usize = 0;
        let frame_offset: i32 = match image_indices {
            Some(idxs) => idxs[0] as i32,
            None => 0,
        };
        let mut out_row: usize = 0;
        let ghost mut cfg0 = *self;
        while out_row < files.len()
            invariant
                self.wf(),
                self.threshold == old(self).threshold,
                self.background == old(self).background,
                self.outlier == old(self).outlier,
                self.weights == old(self).weights,
                self.compression == old(self).compression,
                self.fade == old(self).fade,
                self.sample_count == old(self).sample_count,
                layout.wf(),
                1 <= channels <= 4,
                channels == layout.width_stride,
                total == layout.spec_frame_bytes(),
                buffer@.len() == total,
                is_outlier@.len() == total,
                1 <= slice_bytes <= 0x4000_0000,
                -0x2000_0000 <= frame_offset <= 0x2000_0000,
                out_row <= files@.len(),
                files@.len() <= 0x4000_0000,
                match image_indices {
                    Some(idxs) => idxs@.len() >= 1 && forall|a: int, b: int|
                        0 <= a < b < idxs@.len() ==> idxs@[a] < idxs@[b],
                    None => true,
                },
                forall|b: int|
                    0 <= b < out_row ==> #[trigger] spec_band_decodes(
                        old(self).compression,
                        files@[b]@,
                        spec_opt_view(image_indices),
                    ) && spec_band_uniform(
                        old(self).compression,
                        files@[b]@,
                        spec_opt_view(image_indices),
                    ),
                config_eq(cfg0, *self),
                cfg0.compression == old(self).compression,
                slice_bytes == crate::slicer::spec_slice_bytes(*slices, *layout),
                frame_offset as int == spec_frame_offset_of(image_indices),
                self.sample_indices@.len() == 0 ==> forall|bb: int|
                    0 <= bb < out_row ==> (spec_band_rows(
                        #[trigger] files@[bb]@,
                        spec_opt_view(image_indices),
                    ) == 0 || spec_band_nbytes(
                        cfg0.compression,
                        files@[bb]@,
                        spec_opt_view(image_indices),
                    ) == 0),
                forall|bb: int|
                    0 <= bb < out_row && spec_band_rows(
                        #[trigger] files@[bb]@,
                        spec_opt_view(image_indices),
                    ) >= 1 && spec_band_nbytes(
                        cfg0.compression,
                        files@[bb]@,
                        spec_opt_view(image_indices),
                    ) >= 1 ==> spec_band_nbytes(
                        cfg0.compression,
                        files@[bb]@,
                        spec_opt_view(image_indices),
                    ) <= slice_bytes && bb * slice_bytes + spec_band_nbytes(
                        cfg0.compression,
                        files@[bb]@,
                        spec_opt_view(image_indices),
                    ) <= total,
                forall|bb: int, cc: int|
                    0 <= bb < out_row && spec_band_rows(
                        files@[bb]@,
                        spec_opt_view(image_indices),
                    ) >= 1 && spec_band_nbytes(
                        cfg0.compression,
                        files@[bb]@,
                        spec_opt_view(image_indices),
                    ) >= 1 && 0 <= cc < spec_band_nbytes(
                        cfg0.compression,
                        files@[bb]@,
                        spec_opt_view(image_indices),
                    ) / (channels as int) ==> #[trigger] spec_out_pixel(
                        cfg0,
                        files@[bb]@,
                        spec_opt_view(image_indices),
                        channels as int,
                        slice_bytes as int,
                        frame_offset as int,
                        buffer@,
                        is_outlier@,
                        bb,
                        cc,
                    ),
                warnings as int == (if spec_warns_upto(
                    cfg0,
                    files@,
                    spec_opt_view(image_indices),
                    channels as int,
                    out_row as int,
                ) > 0xFFFF_FFFF {
                    0xFFFF_FFFF as int
                } else {
                    spec_warns_upto(
                        cfg0,
                        files@,
                        spec_opt_view(image_indices),
                        channels as int,
                        out_row as int,
                    )
                }),
            decreases files@.len() - out_row,
        {
            let band = &files[out_row];
            let (data, num_rows, num_bytes) = match read_band(
                band,
                &self.compression,
                image_indices,
            ) {
                Ok(t) => t,
                Err(e) => {
                    proof {
                        assert(band@ == files@[out_row as int]@);
                    }
                    return Err(e);
                },
            };
            proof {
                assert(band@ == files@[out_row as int]@);
                assert(spec_band_decodes(
                    old(self).compression,
                    files@[out_row as int]@,
                    spec_opt_view(image_indices),
                ));
                assert(spec_band_uniform(
                    old(self).compression,
                    files@[out_row as int]@,
                    spec_opt_view(image_indices),
                ));
            }
            if num_rows >= 1 && num_bytes >= 1 {
                let ghost was_empty = self.sample_indices@.len() == 0;
                if self.sample_indices.len() == 0 {
                    match self.sample_count {
                        Some(cnt) => {
                            if cnt == 0 {
                                return Err(ProcessError::Unsupported);
                            }
                            if cnt >= num_rows {
                                let mut v: Vec<usize> = Vec::new();
                                let mut i: usize = 0;
                                while i < num_rows
                                    invariant
                                        i <= num_rows,
                                        v@.len() == i,
                                        forall|k: int| 0 <= k < i ==> #[trigger] v@[k] == k,
                                    decreases num_rows - i,
                                {
                                    v.push(i);
                                    i = i + 1;
                                }
                                self.sample_indices = v;
                            } else {
                                self.sample_indices = crate::rng::sample_indices(
                                    &mut self.rng,
                                    num_rows,
                                    cnt,
                                );
                            }
                        },
                        None => {
                            let mut v: Vec<usize> = Vec::new();
                            let mut i: usize = 0;
                            while i < num_rows
                                invariant
                                    i <= num_rows,
                                    v@.len() == i,
                                    forall|k: int| 0 <= k < i ==> #[trigger] v@[k] == k,
                                decreases num_rows - i,
                            {
                                v.push(i);
                                i = i + 1;
                            }
                            self.sample_indices = v;
                        },
                    }
                }
                proof {
                    if was_empty {
                        lemma_warns_upto_zero(
                            cfg0,
                            files@,
                            spec_opt_view(image_indices),
                            channels as int,
                            out_row as int,
                        );
                        cfg0 = *self;
                        lemma_warns_upto_zero(
                            cfg0,
                            files@,
                            spec_opt_view(image_indices),
                            channels as int,
                            out_row as int,
                        );
                    }
                }
                // The sub-sample must index into this band's frames, and the
                // relative mode needs at least three values for quartiles.
                let sub_len = self.sample_indices.len();
                if sub_len == 0 || sub_len > 0x1000_0000 {
                    return Err(ProcessError::Unsupported);
                }
                if !self.threshold.absolute() && sub_len < 3 {
                    return Err(ProcessError::Unsupported);
                }
                let mut si: usize = 0;
                let mut indices_ok = true;
                while si < sub_len
                    invariant
                        sub_len == self.sample_indices@.len(),
                        si <= sub_len,
                        indices_ok ==> forall|k: int|
                            0 <= k < si ==> #[trigger] self.sample_indices@[k] < num_rows,
                    decreases sub_len - si,
                {
                    if self.sample_indices[si] >= num_rows {
                        indices_ok = false;
                    }
                    si = si + 1;
                }
                if !indices_ok {
                    return Err(ProcessError::Unsupported);
                }
                if num_bytes > slice_bytes {
                    return Err(ProcessError::Unsupported);
                }
                proof {
                    assert(out_row as int * (slice_bytes as int) <= 0x4000_0000i64 as int
                        * 0x4000_0000i64 as int) by (nonlinear_arith)
                        requires
                            0 <= out_row as int <= 0x4000_0000i64 as int,
                            0 <= slice_bytes as int <= 0x4000_0000i64 as int;
                }
                let base_raw = (out_row as u64) * (slice_bytes as u64);
                if base_raw + (num_bytes as u64) > (total as u64) {
                    return Err(ProcessError::Unsupported);
                }
                let ghost selfpre_band = *self;
                let ghost bufpre = buffer@;
                let ghost blpre = is_outlier@;
                let wband = self.process_band(
                    &mut buffer,
                    &mut is_outlier,
                    &data,
                    num_rows,
                    num_bytes,
                    channels,
                    slice_bytes,
                    out_row,
                    frame_offset,
                    Ghost(files@[out_row as int]@),
                    Ghost(spec_opt_view(image_indices)),
                );
                proof {
                    let opt = spec_opt_view(image_indices);
                    let cn = channels as int;
                    let sb = slice_bytes as int;
                    let fo = frame_offset as int;
                    let bfile = files@[out_row as int]@;
                    assert(config_eq(selfpre_band, cfg0));
                    assert forall|cc: int|
                        0 <= cc < num_bytes as int / cn implies #[trigger] spec_out_pixel(
                        cfg0,
                        bfile,
                        opt,
                        cn,
                        sb,
                        fo,
                        buffer@,
                        is_outlier@,
                        out_row as int,
                        cc,
                    ) by {
                        lemma_out_pixel_congruence(
                            selfpre_band,
                            cfg0,
                            bfile,
                            opt,
                            cn,
                            sb,
                            fo,
                            buffer@,
                            is_outlier@,
                            out_row as int,
                            cc,
                        );
                    }
                    assert forall|bb: int, cc: int|
                        0 <= bb < out_row as int && spec_band_rows(files@[bb]@, opt) >= 1
                            && spec_band_nbytes(cfg0.compression, files@[bb]@, opt) >= 1 && 0 <= cc
                            < spec_band_nbytes(cfg0.compression, files@[bb]@, opt)
                            / cn implies #[trigger] spec_out_pixel(
                        cfg0,
                        files@[bb]@,
                        opt,
                        cn,
                        sb,
                        fo,
                        buffer@,
                        is_outlier@,
                        bb,
                        cc,
                    ) by {
                        let nb = spec_band_nbytes(cfg0.compression, files@[bb]@, opt);
                        assert((cc + 1) * cn <= (nb / cn) * cn) by (nonlinear_arith)
                            requires
                                cc + 1 <= nb / cn,
                                0 < cn;
                        vstd::arithmetic::div_mod::lemma_fundamental_div_mod(nb, cn);
                        vstd::arithmetic::div_mod::lemma_mod_bound(nb, cn);
                        assert(cn * (nb / cn) == (nb / cn) * cn) by (nonlinear_arith);
                        assert((cc + 1) * cn == cc * cn + cn) by (nonlinear_arith);
                        assert(0 <= cc * cn) by (nonlinear_arith)
                            requires
                                0 <= cc,
                                0 < cn;
                        assert((bb + 1) * sb <= out_row as int * sb) by (nonlinear_arith)
                            requires
                                bb + 1 <= out_row as int,
                                0 <= sb;
                        assert((bb + 1) * sb == bb * sb + sb) by (nonlinear_arith);
                        assert(0 <= bb * sb) by (nonlinear_arith)
                            requires
                                0 <= bb,
                                0 <= sb;
                        assert(bb * sb + cc * cn + cn <= out_row as int * sb);
                        assert forall|j: int|
                            bb * sb + cc * cn <= j < bb * sb + cc * cn + cn
                                implies #[trigger] buffer@[j] == bufpre[j] by {
                            assert(j < out_row as int * sb);
                        }
                        assert forall|j: int|
                            bb * sb + cc * cn <= j < bb * sb + cc * cn + cn
                                implies #[trigger] is_outlier@[j] == blpre[j] by {
                            assert(j < out_row as int * sb);
                        }
                        lemma_out_pixel_frame(
                            cfg0,
                            files@[bb]@,
                            opt,
                            cn,
                            sb,
                            fo,
                            bufpre,
                            blpre,
                            buffer@,
                            is_outlier@,
                            bb,
                            cc,
                        );
                    }
                    lemma_band_warns_congruence(
                        selfpre_band,
                        cfg0,
                        data@,
                        num_bytes as int,
                        cn,
                        num_rows as int,
                        num_bytes as int / cn,
                    );
                    assert(spec_band_data(cfg0.compression, bfile, opt) == data@);
                    assert(spec_band_rows(bfile, opt) == num_rows as int);
                    assert(spec_band_nbytes(cfg0.compression, bfile, opt) == num_bytes as int);
                    assert(spec_warns_upto(cfg0, files@, opt, cn, out_row as int + 1)
                        == spec_warns_upto(cfg0, files@, opt, cn, out_row as int)
                        + spec_band_warns(
                        cfg0,
                        data@,
                        num_bytes as int,
                        cn,
                        num_rows as int,
                        num_bytes as int / cn,
                    ));
                }
                if wband > 0xFFFF_FFFF - warnings {
                    warnings = 0xFFFF_FFFF;
                } else {
                    warnings = warnings + wband;
                }
            } else {
                proof {
                    let opt = spec_opt_view(image_indices);
                    assert(spec_band_rows(files@[out_row as int]@, opt) == num_rows as int);
                    assert(spec_band_nbytes(cfg0.compression, files@[out_row as int]@, opt)
                        == num_bytes as int);
                    assert(spec_warns_upto(
                        cfg0,
                        files@,
                        opt,
                        channels as int,
                        out_row as int + 1,
                    ) == spec_warns_upto(cfg0, files@, opt, channels as int, out_row as int));
                }
            }
            proof {
                assert(spec_band_decodes(
                    old(self).compression,
                    files@[out_row as int]@,
                    spec_opt_view(image_indices),
                ));
                assert(spec_band_uniform(
                    old(self).compression,
                    files@[out_row as int]@,
                    spec_opt_view(image_indices),
                ));
                assert forall|b: int|
                    0 <= b < out_row as int + 1 implies #[trigger] spec_band_decodes(
                    old(self).compression,
                    files@[b]@,
                    spec_opt_view(image_indices),
                ) && spec_band_uniform(
                    old(self).compression,
                    files@[b]@,
                    spec_opt_view(image_indices),
                ) by {
                    if b < out_row as int {
                        assert(spec_band_decodes(
                            old(self).compression,
                            files@[b]@,
                            spec_opt_view(image_indices),
                        ));
                    }
                }
            }
            out_row = out_row + 1;
        }
        Ok((buffer, is_outlier, warnings))
    }

    /// Calculates the median of a sorted sample, in fixed-point units.
    pub fn median(data: &Vec<u8>) -> (r: i64)
        requires
            data@.len() >= 1,
            data@.len() <= 0x1000_0000,
        ensures
            r == spec_median(data@),
            0 <= r <= 255 * SCALE,
            r % 2500 == 0,
    {
        let len = data.len();
        proof {
            assert((len as int + 1) / 2 <= len) by {
                vstd::arithmetic::div_mod::lemma_multiply_divide_le(len as int + 1, 2, len as int);
            };
            vstd::arithmetic::div_mod::lemma_div_pos_is_pos(len as int + 1, 2);
            assert((len as int + 1) / 2 >= 1) by {
                vstd::arithmetic::div_mod::lemma_div_is_ordered(2, len as int + 1, 2);
            };
        }
        if (len + 1) % 2 == 0 {
            let v = data[(len + 1) / 2 - 1];
            proof {
                vstd::arithmetic::div_mod::lemma_mod_multiples_basic(v as int * 4, 2500);
            }
            v as i64 * SCALE
        } else {
            let idx = (len + 1) / 2;
            proof {
                assert((len + 1) / 2 < len) by {
                    vstd::arithmetic::div_mod::lemma_multiply_divide_lt(len as int + 1, 2, len as int);
                };
                let a = data@[(len + 1) / 2 - 1] as int;
                let b = data@[(len + 1) / 2] as int;
                vstd::arithmetic::div_mod::lemma_mod_multiples_basic((a + b) * 2, 2500);
            }
            (data[idx - 1] as i64 + data[idx] as i64) * 5000
        }
    }

    /// Calculates a quarter-quantile of a sorted sample: `qq` is the
    /// proportion in quarters (1 for Q1, 3 for Q3).
    pub fn quantile(data: &Vec<u8>, qq: usize) -> (r: i64)
        requires
            data@.len() >= 3,
            data@.len() <= 0x1000_0000,
            qq == 1 || qq == 3,
        ensures
            r == spec_quantile_q4(data@, qq as int),
            0 <= r <= 255 * SCALE,
            r % 2500 == 0,
    {
        let len = data.len();
        let pos4 = (len + 1) * qq;
        let p1 = pos4 / 4 - 1;
        let rem = pos4 % 4;
        proof {
            vstd::arithmetic::div_mod::lemma_mod_division_less_than_divisor(pos4 as int, 4);
            vstd::arithmetic::div_mod::lemma_div_pos_is_pos(pos4 as int, 4);
            assert(pos4 / 4 >= 1) by {
                vstd::arithmetic::div_mod::lemma_div_is_ordered(4, pos4 as int, 4);
            };
            assert(pos4 as int / 4 <= len) by {
                vstd::arithmetic::div_mod::lemma_multiply_divide_le(pos4 as int, 4, len as int);
            };
        }
        if rem == 0 {
            let v = data[p1];
            proof {
                vstd::arithmetic::div_mod::lemma_mod_multiples_basic(v as int * 4, 2500);
            }
            v as i64 * SCALE
        } else {
            proof {
                assert(len >= 4) by {
                    if len == 3 {
                        assert(pos4 == 4 || pos4 == 12);
                    }
                };
                assert(pos4 as int / 4 < len) by {
                    vstd::arithmetic::div_mod::lemma_multiply_divide_lt(pos4 as int, 4, len as int);
                };
                let a = data@[p1 as int] as int;
                let b = data@[p1 as int + 1] as int;
                assert(0 <= (4 - rem as int) * a <= 1020 && 0 <= rem as int * b <= 765 && (4
                    - rem as int) * a + rem as int * b <= 1020) by (nonlinear_arith)
                    requires
                        1 <= rem as int <= 3,
                        0 <= a <= 255,
                        0 <= b <= 255;
                vstd::arithmetic::div_mod::lemma_mod_multiples_basic((4 - rem) * a + rem as int * b, 2500);
            }
            ((4 - rem as i64) * data[p1] as i64 + rem as i64 * data[p1 + 1] as i64) * 2500
        }
    }

    /// Calculates quartiles from a sorted sample.
    /// Returns (Q1, Median, Q3), in fixed-point units.
    pub fn quartiles(data: &Vec<u8>) -> (r: (i64, i64, i64))
        requires
            data@.len() >= 3,
            data@.len() <= 0x1000_0000,
        ensures
            r.0 == spec_quantile_q4(data@, 1),
            r.1 == spec_median(data@),
            r.2 == spec_quantile_q4(data@, 3),
            0 <= r.0 <= 255 * SCALE && r.0 % 2500 == 0,
            0 <= r.1 <= 255 * SCALE,
            0 <= r.2 <= 255 * SCALE && r.2 % 2500 == 0,
    {
        (Self::quantile(data, 1), Self::median(data), Self::quantile(data, 3))
    }
}

} // verus!
