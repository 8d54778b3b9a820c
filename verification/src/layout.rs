//! The raster layout model: dimensions and strides of the 8-bit frames the
//! store slices, fixed for a whole run.

use vstd::prelude::*;

verus! {

/// The largest frame dimension the store accepts.
pub const DIMENSION_LIMIT: u32 = 0x100_0000;

/// Width, height and strides of an 8-bit raster frame. Every frame of a run
/// must match the first frame's layout exactly.
#[derive(Debug, Clone, Copy, PartialEq, Eq, Structural)]
pub struct RasterLayout {
    pub channels: u8,
    pub channel_stride: usize,
    pub width: u32,
    pub width_stride: usize,
    pub height: u32,
    pub height_stride: usize,
}

impl RasterLayout {
    /// Structural invariant: a packed 8-bit layout with one to four
    /// channels and bounded dimensions.
    pub open spec fn wf(self) -> bool {
        &&& 1 <= self.channels <= 4
        &&& self.channel_stride == 1
        &&& self.width_stride == self.channels
        &&& self.height_stride == self.width * self.channels
        &&& 1 <= self.width <= DIMENSION_LIMIT
        &&& 1 <= self.height <= DIMENSION_LIMIT
        &&& self.height * self.height_stride <= 0x4000_0000
    }

    /// The number of sample bytes of one frame.
    pub open spec fn spec_frame_bytes(self) -> int {
        self.height * self.height_stride
    }

    /// Creates a packed layout for the given dimensions.
    pub fn new(width: u32, height: u32, channels: u8) -> (r: RasterLayout)
        requires
            1 <= channels <= 4,
            1 <= width <= DIMENSION_LIMIT,
            1 <= height <= DIMENSION_LIMIT,
            height * (width * channels) <= 0x4000_0000,
        ensures
            r.wf(),
            r.width == width,
            r.height == height,
            r.channels == channels,
    {
        proof {
            assert(width as int * (channels as int) <= 0x4000_0000 && height as int * (width as int
                * channels as int) == height as int * (width as int) * (channels as int))
                by (nonlinear_arith)
                requires
                    1 <= height,
                    1 <= width <= 0x100_0000,
                    1 <= channels <= 4,
                    height as int * ((width as int) * (channels as int)) <= 0x4000_0000;
        }
        RasterLayout {
            channels,
            channel_stride: 1,
            width,
            width_stride: channels as usize,
            height,
            height_stride: width as usize * channels as usize,
        }
    }

    /// The number of sample bytes of one frame.
    pub fn frame_bytes(&self) -> (r: usize)
        requires
            self.wf(),
        ensures
            r == self.spec_frame_bytes(),
    {
        self.height as usize * self.height_stride
    }
}

/// One decoded 8-bit frame: its layout and its sample bytes.
pub struct Frame {
    pub layout: RasterLayout,
    pub samples: Vec<u8>,
}

impl Frame {
    /// Structural invariant: the sample buffer fills the layout exactly.
    pub open spec fn wf(self) -> bool {
        &&& self.layout.wf()
        &&& self.samples@.len() == self.layout.spec_frame_bytes()
    }
}

/// The byte index of a pixel's first channel in a packed raster of the
/// given size.
pub fn xy_to_index(size: (usize, usize), channels: usize, x: usize, y: usize) -> (r: usize)
    requires
        size.0 * channels <= 0x4000_0000,
        y * (size.0 * channels) + x * channels <= 0xFFFF_FFFF,
    ensures
        r == y * size.0 * channels + x * channels,
{
    let row = size.0 * channels;
    proof {
        assert(y as int * (size.0 as int * channels as int) == y as int * size.0 as int
            * channels as int) by (nonlinear_arith);
    }
    y * row + x * channels
}

} // verus!
