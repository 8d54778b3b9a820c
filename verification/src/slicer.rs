//! Converts a series of frames by time to band files by spatial slice:
//! transposes (x, y) in the cube (x, y, t) to (x, t).

use vstd::prelude::*;

use crate::layout::{Frame, RasterLayout};
use crate::streams::{Compression, PixelOutputStream};

verus! {

/// The ceiling of `a / b`.
pub open spec fn spec_ceil_div(a: int, b: int) -> int {
    (a + b - 1) / b
}

/// Enough slices of size `ceil(a / b)` cover `a`.
pub proof fn lemma_ceil_div_covers(a: int, b: int)
    requires
        a >= 0,
        b >= 1,
    ensures
        spec_ceil_div(a, b) * b >= a,
        spec_ceil_div(a, b) >= 0,
{
    vstd::arithmetic::div_mod::lemma_fundamental_div_mod(a + b - 1, b);
    vstd::arithmetic::div_mod::lemma_mod_bound(a + b - 1, b);
    vstd::arithmetic::div_mod::lemma_div_pos_is_pos(a + b - 1, b);
    let q = (a + b - 1) / b;
    assert(b * q == a + b - 1 - ((a + b - 1) % b));
    assert(q * b == b * q) by (nonlinear_arith);
}

/// The slicing policy: how many band files a frame is split into, given as
/// a row count, a pixel count, or a total band count per slice.
#[derive(Debug, Clone, Copy, PartialEq, Eq, Structural)]
pub enum SliceLength {
    Rows(usize),
    Pixels(usize),
    Count(usize),
}

/// The byte length of one band slice of a frame.
pub open spec fn spec_slice_bytes(s: SliceLength, lay: RasterLayout) -> int {
    match s {
        SliceLength::Pixels(n) => n * lay.width_stride,
        SliceLength::Count(n) => spec_ceil_div(lay.height * lay.height_stride, n as int),
        SliceLength::Rows(n) => n * lay.height_stride,
    }
}

/// The number of band slices per frame.
pub open spec fn spec_slice_count(s: SliceLength, lay: RasterLayout) -> int {
    match s {
        SliceLength::Pixels(n) => spec_ceil_div(lay.height * lay.width, n as int),
        SliceLength::Count(n) => n as int,
        SliceLength::Rows(n) => spec_ceil_div(lay.height as int, n as int),
    }
}

impl SliceLength {
    /// Structural invariant: a positive, bounded slice parameter.
    pub open spec fn wf(self) -> bool {
        match self {
            SliceLength::Pixels(n) => 1 <= n <= 0x100_0000,
            SliceLength::Count(n) => 1 <= n <= 0x100_0000,
            SliceLength::Rows(n) => 1 <= n <= 0x100_0000,
        }
    }

    /// The byte length of one band slice of a frame.
    pub fn bytes(&self, layout: &RasterLayout) -> (r: usize)
        requires
            self.wf(),
            layout.wf(),
            spec_slice_bytes(*self, *layout) <= 0x4000_0000,
        ensures
            r == spec_slice_bytes(*self, *layout),
            1 <= r <= 0x4000_0000,
    {
        match self {
            SliceLength::Pixels(n) => {
                proof {
                    assert(1 <= *n as int * (layout.width_stride as int)) by (nonlinear_arith)
                        requires
                            1 <= *n as int && 1 <= layout.width_stride as int;
                }
                let r = *n * layout.width_stride;
                proof {
                    assert(r == spec_slice_bytes(*self, *layout));
                }
                r
            },
            SliceLength::Count(n) => {
                let total = layout.frame_bytes();
                proof {
                    assert(1 <= layout.height_stride as int) by (nonlinear_arith)
                        requires
                            layout.height_stride as int == layout.width as int * (
                            layout.channels as int),
                            1 <= layout.width as int,
                            1 <= layout.channels as int;
                    assert(1 <= layout.height as int * (layout.height_stride as int))
                        by (nonlinear_arith)
                        requires
                            1 <= layout.height as int && 1 <= layout.height_stride as int;
                    vstd::arithmetic::div_mod::lemma_div_pos_is_pos(
                        total as int + *n as int - 1,
                        *n as int,
                    );
                    assert(spec_ceil_div(total as int, *n as int) >= 1) by {
                        vstd::arithmetic::div_mod::lemma_div_is_ordered(
                            *n as int,
                            total as int + *n as int - 1,
                            *n as int,
                        );
                        vstd::arithmetic::div_mod::lemma_div_by_self(*n as int);
                    };
                }
                let r = (total + *n - 1) / *n;
                proof {
                    assert(r == spec_slice_bytes(*self, *layout));
                }
                r
            },
            SliceLength::Rows(n) => {
                proof {
                    assert(1 <= layout.height_stride as int) by (nonlinear_arith)
                        requires
                            layout.height_stride as int == layout.width as int * (
                            layout.channels as int),
                            1 <= layout.width as int,
                            1 <= layout.channels as int;
                    assert(1 <= *n as int * (layout.height_stride as int)) by (nonlinear_arith)
                        requires
                            1 <= *n as int && 1 <= layout.height_stride as int;
                }
                let r = *n * layout.height_stride;
                proof {
                    assert(r == spec_slice_bytes(*self, *layout));
                }
                r
            },
        }
    }

    /// The number of band slices per frame.
    pub fn count(&self, layout: &RasterLayout) -> (r: usize)
        requires
            self.wf(),
            layout.wf(),
        ensures
            r == spec_slice_count(*self, *layout),
            1 <= r <= 0x4000_0000,
    {
        match self {
            SliceLength::Pixels(n) => {
                proof {
                    assert(layout.width as int <= layout.height_stride as int) by (nonlinear_arith)
                        requires
                            layout.height_stride as int == layout.width as int * (
                            layout.channels as int),
                            1 <= layout.channels as int,
                            0 <= layout.width as int;
                    assert(1 <= layout.height as int * (layout.width as int)
                        <= layout.height as int * (layout.height_stride as int))
                        by (nonlinear_arith)
                        requires
                            1 <= layout.width as int <= layout.height_stride as int,
                            1 <= layout.height as int;
                }
                let pixels = layout.height as usize * layout.width as usize;
                proof {
                    vstd::arithmetic::div_mod::lemma_div_pos_is_pos(
                        pixels as int + *n as int - 1,
                        *n as int,
                    );
                    assert(spec_ceil_div(pixels as int, *n as int) >= 1) by {
                        vstd::arithmetic::div_mod::lemma_div_is_ordered(
                            *n as int,
                            pixels as int + *n as int - 1,
                            *n as int,
                        );
                        vstd::arithmetic::div_mod::lemma_div_by_self(*n as int);
                    };
                    assert((pixels as int + *n as int - 1) <= (*n as int) * (pixels as int))
                        by (nonlinear_arith)
                        requires
                            1 <= *n as int,
                            1 <= pixels as int;
                    vstd::arithmetic::div_mod::lemma_multiply_divide_le(
                        pixels as int + *n as int - 1,
                        *n as int,
                        pixels as int,
                    );
                }
                (pixels + *n - 1) / *n
            },
            SliceLength::Count(n) => *n,
            SliceLength::Rows(n) => {
                let h = layout.height as usize;
                proof {
                    vstd::arithmetic::div_mod::lemma_div_pos_is_pos(
                        h as int + *n as int - 1,
                        *n as int,
                    );
                    assert(spec_ceil_div(h as int, *n as int) >= 1) by {
                        vstd::arithmetic::div_mod::lemma_div_is_ordered(
                            *n as int,
                            h as int + *n as int - 1,
                            *n as int,
                        );
                        vstd::arithmetic::div_mod::lemma_div_by_self(*n as int);
                    };
                    assert((h as int + *n as int - 1) <= (*n as int) * (h as int))
                        by (nonlinear_arith)
                        requires
                            1 <= *n as int,
                            1 <= h as int;
                    vstd::arithmetic::div_mod::lemma_multiply_divide_le(
                        h as int + *n as int - 1,
                        *n as int,
                        h as int,
                    );
                }
                (h + *n - 1) / *n
            },
        }
    }
}

/// One band slice of a frame's samples: the byte range of band `b`, clamped
/// to the frame's end.
pub open spec fn spec_band_slice(samples: Seq<u8>, bytes: int, b: int) -> Seq<u8> {
    let len = samples.len() as int;
    let start = if b * bytes > len {
        len
    } else {
        b * bytes
    };
    let end = if start + bytes > len {
        len
    } else {
        start + bytes
    };
    samples.subrange(start, end)
}

/// The concatenation of the first `count` band slices of a frame.
pub open spec fn spec_band_slices_concat(samples: Seq<u8>, bytes: int, count: int) -> Seq<u8>
    decreases count,
{
    if count <= 0 {
        Seq::empty()
    } else {
        spec_band_slices_concat(samples, bytes, count - 1) + spec_band_slice(
            samples,
            bytes,
            count - 1,
        )
    }
}

/// Law: as long as enough bands are taken to cover the frame,
/// concatenating a frame's band slices in order reconstructs the frame's
/// samples byte-identically.
pub proof fn lemma_band_slices_reassemble(samples: Seq<u8>, bytes: int, count: int)
    requires
        bytes >= 1,
        count >= 0,
        count * bytes >= samples.len(),
    ensures
        spec_band_slices_concat(samples, bytes, count) == samples,
    decreases count,
{
    let len = samples.len() as int;
    if count == 0 {
        assert(count * bytes == 0) by (nonlinear_arith)
            requires
                count == 0;
        assert(samples =~= Seq::<u8>::empty());
    } else if (count - 1) * bytes >= len {
        lemma_band_slices_reassemble(samples, bytes, count - 1);
        assert(spec_band_slice(samples, bytes, count - 1) =~= Seq::<u8>::empty());
        assert(spec_band_slices_concat(samples, bytes, count) =~= samples);
    } else {
        lemma_band_slices_prefix(samples, bytes, count - 1);
        assert((count - 1) * bytes + bytes == count * bytes) by (nonlinear_arith);
        assert(spec_band_slices_concat(samples, bytes, count) =~= samples);
    }
}

/// The concatenation of the first `count` band slices is the frame's
/// prefix up to `count * bytes`.
#[verifier::spinoff_prover]
proof fn lemma_band_slices_prefix(samples: Seq<u8>, bytes: int, count: int)
    requires
        bytes >= 1,
        count >= 0,
    ensures
        spec_band_slices_concat(samples, bytes, count) == samples.subrange(
            0,
            if count * bytes > samples.len() {
                samples.len() as int
            } else {
                count * bytes
            },
        ),
    decreases count,
{
    let len = samples.len() as int;
    if count == 0 {
        assert(spec_band_slices_concat(samples, bytes, 0) =~= samples.subrange(0, 0));
    } else {
        lemma_band_slices_prefix(samples, bytes, count - 1);
        assert((count - 1) * bytes + bytes == count * bytes) by (nonlinear_arith);
        assert((count - 1) * bytes <= count * bytes) by (nonlinear_arith)
            requires
                bytes >= 1;
        assert(0 <= (count - 1) * bytes) by (nonlinear_arith)
            requires
                bytes >= 1 && count - 1 >= 0;
        let m1: int = if (count - 1) * bytes > len {
            len
        } else {
            (count - 1) * bytes
        };
        let m2: int = if count * bytes > len {
            len
        } else {
            count * bytes
        };
        assert(0 <= m1 <= m2 <= len);
        assert(spec_band_slice(samples, bytes, count - 1) =~= samples.subrange(m1, m2));
        assert(samples.subrange(0, m1) + samples.subrange(m1, m2) =~= samples.subrange(0, m2));
        assert(spec_band_slices_concat(samples, bytes, count) =~= samples.subrange(
            0,
            if count * bytes > len {
                len
            } else {
                count * bytes
            },
        ));
    }
}

/// Every slicing policy covers the frame: the number of bands times the
/// band size reaches the frame's byte count, so no trailing bytes are lost.
pub proof fn lemma_slices_cover(s: SliceLength, lay: RasterLayout)
    requires
        s.wf(),
        lay.wf(),
    ensures
        spec_slice_count(s, lay) * spec_slice_bytes(s, lay) >= lay.spec_frame_bytes(),
{
    let h = lay.height as int;
    let w = lay.width as int;
    let ws = lay.width_stride as int;
    let hs = lay.height_stride as int;
    assert(hs == w * ws) by (nonlinear_arith)
        requires
            hs == w * (lay.channels as int),
            ws == lay.channels as int;
    match s {
        SliceLength::Rows(n) => {
            lemma_ceil_div_covers(h, n as int);
            let c = spec_ceil_div(h, n as int);
            assert(c * (n as int * hs) == (c * (n as int)) * hs) by (nonlinear_arith);
            assert((c * (n as int)) * hs >= h * hs) by (nonlinear_arith)
                requires
                    c * (n as int) >= h,
                    hs >= 0;
        },
        SliceLength::Pixels(n) => {
            lemma_ceil_div_covers(h * w, n as int);
            let c = spec_ceil_div(h * w, n as int);
            assert(c * (n as int * ws) == (c * (n as int)) * ws) by (nonlinear_arith);
            assert((c * (n as int)) * ws >= (h * w) * ws) by (nonlinear_arith)
                requires
                    c * (n as int) >= h * w,
                    ws >= 0;
            assert((h * w) * ws == h * (w * ws)) by (nonlinear_arith);
        },
        SliceLength::Count(n) => {
            lemma_ceil_div_covers(h * hs, n as int);
            let c = spec_ceil_div(h * hs, n as int);
            assert(n as int * c == c * (n as int)) by (nonlinear_arith);
        },
    }
}

/// The decoded chunk `f` of each band, concatenated in band order: one
/// frame as a reader reassembles it from the band files.
pub open spec fn spec_frame_reassembled(bands: Seq<Seq<Seq<u8>>>, f: int) -> Seq<u8>
    decreases bands.len(),
{
    if bands.len() == 0 {
        Seq::empty()
    } else {
        spec_frame_reassembled(bands.drop_last(), f) + bands.last()[f]
    }
}

/// The reassembly of the first `k` bands is the concatenation of the first
/// `k` band slices.
proof fn lemma_reassembled_eq_concat(
    samples: Seq<u8>,
    bands: Seq<Seq<Seq<u8>>>,
    bytes: int,
    f: int,
    k: int,
)
    requires
        bytes >= 1,
        0 <= k <= bands.len(),
        forall|b: int|
            0 <= b < bands.len() ==> (#[trigger] bands[b])[f] == spec_band_slice(
                samples,
                bytes,
                b,
            ),
    ensures
        spec_frame_reassembled(bands.subrange(0, k), f) == spec_band_slices_concat(
            samples,
            bytes,
            k,
        ),
    decreases k,
{
    if k == 0 {
        assert(bands.subrange(0, 0) =~= Seq::<Seq<Seq<u8>>>::empty());
    } else {
        lemma_reassembled_eq_concat(samples, bands, bytes, f, k - 1);
        assert(bands.subrange(0, k).drop_last() =~= bands.subrange(0, k - 1));
        assert(bands.subrange(0, k).last() == bands[k - 1]);
    }
}

/// Law (round trip): where a band set holds, as its decoded chunks, the
/// band slices of a frame, reading the bands back and concatenating chunk
/// `f` of every band in order reconstructs frame `f` byte-identically.
pub proof fn lemma_store_round_trip(
    frames: Seq<Seq<u8>>,
    bands: Seq<Seq<Seq<u8>>>,
    bytes: int,
    f: int,
)
    requires
        bytes >= 1,
        0 <= f < frames.len(),
        bands.len() * bytes >= frames[f].len(),
        forall|b: int|
            0 <= b < bands.len() ==> (#[trigger] bands[b])[f] == spec_band_slice(
                frames[f],
                bytes,
                b,
            ),
    ensures
        spec_frame_reassembled(bands, f) == frames[f],
{
    lemma_reassembled_eq_concat(frames[f], bands, bytes, f, bands.len() as int);
    assert(bands.subrange(0, bands.len() as int) =~= bands);
    lemma_band_slices_reassemble(frames[f], bytes, bands.len() as int);
}

/// Error type for failed time-slicing.
#[derive(Debug, Clone, Copy, PartialEq, Eq, Structural)]
pub enum TimeSliceError {
    /// No frames were handed to the store.
    NoImages,
    /// A frame's layout disagrees with the first captured layout.
    LayoutMismatch,
    /// A chunk could not be compressed, or was too large for its record.
    Compression,
}

impl TimeSliceError {
    /// The error message.
    pub fn message(&self) -> String {
        match self {
            TimeSliceError::NoImages => "No images found for given pattern".to_owned(),
            TimeSliceError::LayoutMismatch => "Image layout does not fit!".to_owned(),
            TimeSliceError::Compression => "Unable to compress a time slice chunk".to_owned(),
        }
    }
}

/// Converts a series of frames by time to in-memory band files by spatial
/// slice. The caller persists the band buffers.
pub struct TimeSlicer {
    pub is_16: bool,
}

impl TimeSlicer {
    /// Creates a slicer for 8-bit samples.
    pub fn new_8bit() -> (r: Self)
        ensures
            !r.is_16,
    {
        TimeSlicer { is_16: false }
    }

    /// Creates a slicer for 16-bit samples. The variant is structurally
    /// anticipated; the statistics engine works on 8-bit samples.
    pub fn new_16bit() -> (r: Self)
        ensures
            r.is_16,
    {
        TimeSlicer { is_16: true }
    }

    /// Writes time slices for all frames: every frame is split into byte
    /// ranges per the slicing policy, and range `b` of frame `f` is
    /// appended, compressed, as chunk `f` of band `b`. Every frame must
    /// match the first frame's layout; a mismatch aborts the write. The
    /// write succeeds if and only if the input is nonempty, every layout
    /// matches, and every compressed chunk fits its length prefix. Returns
    /// the band files, the captured layout and the frame count.
    pub fn write_time_slices(
        &self,
        frames: &Vec<Frame>,
        compression: &Compression,
        slices: &SliceLength,
    ) -> (r: Result<(Vec<PixelOutputStream>, RasterLayout, usize), TimeSliceError>)
        requires
            forall|i: int| 0 <= i < frames@.len() ==> (#[trigger] frames@[i]).wf(),
            slices.wf(),
            compression.wf(),
            frames@.len() > 0 ==> spec_slice_bytes(*slices, frames@[0].layout) <= 0x4000_0000,
            frames@.len() <= 0x1000_0000,
        ensures
            r == Err::<(Vec<PixelOutputStream>, RasterLayout, usize), TimeSliceError>(
                TimeSliceError::NoImages,
            ) <==> frames@.len() == 0,
            r == Err::<(Vec<PixelOutputStream>, RasterLayout, usize), TimeSliceError>(
                TimeSliceError::LayoutMismatch,
            ) <==> (frames@.len() > 0 && exists|i: int|
                0 <= i < frames@.len() && (#[trigger] frames@[i]).layout != frames@[0].layout),
            r == Err::<(Vec<PixelOutputStream>, RasterLayout, usize), TimeSliceError>(
                TimeSliceError::Compression,
            ) <==> (frames@.len() > 0 && (forall|i: int|
                0 <= i < frames@.len() ==> (#[trigger] frames@[i]).layout == frames@[0].layout)
                && exists|b: int, f: int|
                0 <= b < spec_slice_count(*slices, frames@[0].layout) && 0 <= f < frames@.len() && (
                #[trigger] crate::streams::spec_pack(
                    *compression,
                    spec_band_slice(
                        frames@[f].samples@,
                        spec_slice_bytes(*slices, frames@[0].layout),
                        b,
                    ),
                )).len() > 0xFFFF_FFFF),
            r is Ok <==> (frames@.len() > 0 && (forall|i: int|
                0 <= i < frames@.len() ==> (#[trigger] frames@[i]).layout == frames@[0].layout)
                && forall|b: int, f: int|
                0 <= b < spec_slice_count(*slices, frames@[0].layout) && 0 <= f < frames@.len()
                    ==> (#[trigger] crate::streams::spec_pack(
                    *compression,
                    spec_band_slice(
                        frames@[f].samples@,
                        spec_slice_bytes(*slices, frames@[0].layout),
                        b,
                    ),
                )).len() <= 0xFFFF_FFFF),
            r matches Ok(out) ==> {
                &&& frames@.len() > 0
                &&& forall|i: int|
                    0 <= i < frames@.len() ==> (#[trigger] frames@[i]).layout == frames@[0].layout
                &&& out.1 == frames@[0].layout
                &&& out.2 == frames@.len()
                &&& out.0@.len() == spec_slice_count(*slices, frames@[0].layout)
                &&& forall|b: int|
                    0 <= b < out.0@.len() ==> (#[trigger] out.0@[b]).wf() && out.0@[b].compression
                        == compression && out.0@[b].chunks@.len() == frames@.len()
                &&& forall|b: int, f: int|
                    0 <= b < out.0@.len() && 0 <= f < frames@.len() ==> (#[trigger] out.0@[b].chunks@[f])
                        == spec_band_slice(
                        frames@[f].samples@,
                        spec_slice_bytes(*slices, frames@[0].layout),
                        b,
                    )
            },
    {
        if frames.len() == 0 {
            return Err(TimeSliceError::NoImages);
        }
        let layout = frames[0].layout;
        let mut i: usize = 1;
        while i < frames.len()
            invariant
                forall|k: int| 0 <= k < frames@.len() ==> (#[trigger] frames@[k]).wf(),
                frames@.len() > 0,
                layout == frames@[0].layout,
                1 <= i <= frames@.len(),
                forall|k: int| 0 <= k < i ==> (#[trigger] frames@[k]).layout == layout,
            decreases frames@.len() - i,
        {
            if !(frames[i].layout == layout) {
                return Err(TimeSliceError::LayoutMismatch);
            }
            i = i + 1;
        }
        let slice_bytes = slices.bytes(&layout);
        let slice_count = slices.count(&layout);
        let total = layout.frame_bytes();
        let mut bands: Vec<PixelOutputStream> = Vec::new();
        let mut b: usize = 0;
        while b < slice_count
            invariant
                forall|k: int| 0 <= k < frames@.len() ==> (#[trigger] frames@[k]).wf(),
                forall|k: int| 0 <= k < frames@.len() ==> (#[trigger] frames@[k]).layout == layout,
                1 <= frames@.len() <= 0x1000_0000,
                layout == frames@[0].layout,
                layout.wf(),
                slice_bytes == spec_slice_bytes(*slices, layout),
                1 <= slice_bytes <= 0x4000_0000,
                slice_count == spec_slice_count(*slices, layout),
                1 <= slice_count <= 0x4000_0000,
                total == layout.spec_frame_bytes(),
                b <= slice_count,
                bands@.len() == b,
                forall|q: int|
                    0 <= q < b ==> (#[trigger] bands@[q]).wf() && bands@[q].compression
                        == compression && bands@[q].chunks@.len() == frames@.len(),
                forall|q: int, f: int|
                    0 <= q < b && 0 <= f < frames@.len() ==> (#[trigger] bands@[q].chunks@[f])
                        == spec_band_slice(frames@[f].samples@, slice_bytes as int, q),
                forall|q: int, f: int|
                    0 <= q < b && 0 <= f < frames@.len() ==> (
                    #[trigger] crate::streams::spec_pack(
                        *compression,
                        spec_band_slice(frames@[f].samples@, slice_bytes as int, q),
                    )).len() <= 0xFFFF_FFFF,
                compression.wf(),
            decreases slice_count - b,
        {
            let mut stream = PixelOutputStream::new(*compression);
            let mut f: usize = 0;
            while f < frames.len()
                invariant
                    forall|k: int| 0 <= k < frames@.len() ==> (#[trigger] frames@[k]).wf(),
                    forall|k: int|
                        0 <= k < frames@.len() ==> (#[trigger] frames@[k]).layout == layout,
                    frames@.len() >= 1,
                    layout.wf(),
                    1 <= slice_bytes <= 0x4000_0000,
                    total == layout.spec_frame_bytes(),
                    f <= frames@.len(),
                    b < slice_count,
                    slice_count <= 0x4000_0000,
                    slice_bytes == spec_slice_bytes(*slices, layout),
                    stream.wf(),
                    stream.compression == compression,
                    stream.chunks@.len() == f,
                    forall|k: int|
                        0 <= k < f ==> (#[trigger] stream.chunks@[k]) == spec_band_slice(
                            frames@[k].samples@,
                            slice_bytes as int,
                            b as int,
                        ),
                    forall|k: int|
                        0 <= k < f ==> (#[trigger] crate::streams::spec_pack(
                            *compression,
                            spec_band_slice(frames@[k].samples@, slice_bytes as int, b as int),
                        )).len() <= 0xFFFF_FFFF,
                    b < slice_count,
                    slice_count == spec_slice_count(*slices, layout),
                    slice_bytes == spec_slice_bytes(*slices, layout),
                    layout == frames@[0].layout,
                    compression.wf(),
                decreases frames@.len() - f,
            {
                proof {
                    assert(b as int * (slice_bytes as int) <= 0x4000_0000i64 as int
                        * 0x4000_0000i64 as int) by (nonlinear_arith)
                        requires
                            0 <= b as int <= 0x4000_0000i64 as int,
                            0 <= slice_bytes as int <= 0x4000_0000i64 as int;
                }
                let start_raw = (b as u64) * (slice_bytes as u64);
                let start: usize = if start_raw > total as u64 {
                    total
                } else {
                    start_raw as usize
                };
                let end: usize = if start + slice_bytes > total {
                    total
                } else {
                    start + slice_bytes
                };
                let frame = &frames[f];
                proof {
                    assert(frame.samples@.len() == total);
                    assert(frame.samples@.subrange(start as int, end as int) =~= spec_band_slice(
                        frame.samples@,
                        slice_bytes as int,
                        b as int,
                    ));
                }
                let piece: &[u8] = &frame.samples.as_slice()[start..end];
                match stream.write_chunk(piece) {
                    Ok(_) => {},
                    Err(_) => {
                        proof {
                            assert(crate::streams::spec_pack(
                                *compression,
                                spec_band_slice(
                                    frames@[f as int].samples@,
                                    slice_bytes as int,
                                    b as int,
                                ),
                            ).len() > 0xFFFF_FFFF);
                        }
                        return Err(TimeSliceError::Compression);
                    },
                }
                f = f + 1;
            }
            bands.push(stream);
            b = b + 1;
        }
        Ok((bands, layout, frames.len()))
    }
}

} // verus!
