//! Camera shake correction parameters and crop rectangles. The
//! cross-correlation estimator itself is an external collaborator; it
//! supplies per-frame offsets, which become common crop rectangles here.

use vstd::prelude::*;

verus! {

/// Camera shake reduction parameters and anchors.
#[derive(Debug, Clone)]
pub struct ShakeReduction {
    pub anchors: Vec<(i32, i32)>,
    pub anchor_radius: u32,
    pub search_radius: u32,
}

impl ShakeReduction {
    /// Creates a new ShakeReduction.
    pub fn new(anchors: Vec<(i32, i32)>, anchor_radius: u32, search_radius: u32) -> (r: Self)
        ensures
            r.anchors == anchors,
            r.anchor_radius == anchor_radius,
            r.search_radius == search_radius,
    {
        ShakeReduction { anchors, anchor_radius, search_radius }
    }

    /// The shake reduction anchors.
    pub fn anchors(&self) -> (r: &Vec<(i32, i32)>)
        ensures
            r == self.anchors,
    {
        &self.anchors
    }

    /// The anchor radius.
    pub fn anchor_radius(&self) -> (r: u32)
        ensures
            r == self.anchor_radius,
    {
        self.anchor_radius
    }

    /// The search radius.
    pub fn search_radius(&self) -> (r: u32)
        ensures
            r == self.search_radius,
    {
        self.search_radius
    }
}

/// Camera shake reduction parameters.
#[derive(Debug, Clone, Copy, PartialEq, Eq, Structural)]
pub struct ShakeParams {
    pub anchor_radius: u32,
    pub search_radius: u32,
}

impl ShakeParams {
    /// The anchor radius.
    pub fn anchor_radius(&self) -> (r: u32)
        ensures
            r == self.anchor_radius,
    {
        self.anchor_radius
    }

    /// The search radius.
    pub fn search_radius(&self) -> (r: u32)
        ensures
            r == self.search_radius,
    {
        self.search_radius
    }
}

/// Camera shake reduction anchor.
#[derive(Debug, Clone, Copy)]
pub struct ShakeAnchor {
    pub anchor: (i32, i32),
}

impl ShakeAnchor {
    /// The anchor point.
    pub fn anchor(&self) -> (r: (i32, i32))
        ensures
            r == self.anchor,
    {
        self.anchor
    }
}

/// The least x offset among the first `k` offsets, at most 0.
pub open spec fn spec_min_off(offs: Seq<(i32, i32)>, first: bool, k: int) -> int
    decreases k,
{
    if k <= 0 {
        0
    } else {
        let p = spec_min_off(offs, first, k - 1);
        let v = if first {
            offs[k - 1].0 as int
        } else {
            offs[k - 1].1 as int
        };
        if v < p {
            v
        } else {
            p
        }
    }
}

/// The greatest x offset among the first `k` offsets, at least 0.
pub open spec fn spec_max_off(offs: Seq<(i32, i32)>, first: bool, k: int) -> int
    decreases k,
{
    if k <= 0 {
        0
    } else {
        let p = spec_max_off(offs, first, k - 1);
        let v = if first {
            offs[k - 1].0 as int
        } else {
            offs[k - 1].1 as int
        };
        if v > p {
            v
        } else {
            p
        }
    }
}

/// The running minimum bounds every prefix element and 0.
proof fn lemma_min_max_off(offs: Seq<(i32, i32)>, first: bool, k: int)
    requires
        0 <= k <= offs.len(),
    ensures
        spec_min_off(offs, first, k) <= 0 <= spec_max_off(offs, first, k),
        forall|j: int|
            0 <= j < k ==> spec_min_off(offs, first, k) <= (if first {
                (#[trigger] offs[j]).0 as int
            } else {
                offs[j].1 as int
            }) <= spec_max_off(offs, first, k),
    decreases k,
{
    if k > 0 {
        lemma_min_max_off(offs, first, k - 1);
    }
}

/// Image crop parameters.
#[derive(Debug, Clone, Copy, PartialEq, Eq, Structural)]
pub struct Crop {
    pub x: u32,
    pub y: u32,
    pub w: u32,
    pub h: u32,
}

impl Crop {
    /// Creates new crop parameters.
    pub fn new(x: u32, y: u32, w: u32, h: u32) -> (r: Self)
        ensures
            r == (Crop { x, y, w, h }),
    {
        Crop { x, y, w, h }
    }

    /// Creates a crop rectangle for each frame from the per-frame shake
    /// offsets and the original image's layout: a common largest rectangle
    /// shifted by each frame's offset. Returns nothing where every offset
    /// vanishes (no shake detected).
    pub fn create(offset: &Vec<(i32, i32)>, layout: &crate::layout::RasterLayout) -> (r: Option<
        Vec<Crop>,
    >)
        requires
            layout.wf(),
            forall|j: int|
                0 <= j < offset@.len() ==> -1_000_000 <= (#[trigger] offset@[j]).0 <= 1_000_000
                    && -1_000_000 <= offset@[j].1 <= 1_000_000,
            spec_max_off(offset@, true, offset@.len() as int) - spec_min_off(
                offset@,
                true,
                offset@.len() as int,
            ) <= layout.width,
            spec_max_off(offset@, false, offset@.len() as int) - spec_min_off(
                offset@,
                false,
                offset@.len() as int,
            ) <= layout.height,
        ensures
            ({
                let n = offset@.len() as int;
                let xmin = spec_min_off(offset@, true, n);
                let xmax = spec_max_off(offset@, true, n);
                let ymin = spec_min_off(offset@, false, n);
                let ymax = spec_max_off(offset@, false, n);
                &&& (r is None <==> xmin == 0 && ymin == 0 && xmax == 0 && ymax == 0)
                &&& r matches Some(v) ==> {
                    &&& v@.len() == n
                    &&& forall|j: int|
                        0 <= j < n ==> #[trigger] v@[j] == (Crop {
                            x: ((-xmin) + offset@[j].0) as u32,
                            y: ((-ymin) + offset@[j].1) as u32,
                            w: (layout.width + xmin - xmax) as u32,
                            h: (layout.height + ymin - ymax) as u32,
                        })
                }
            }),
    {
        let n = offset.len();
        let mut xmin: i32 = 0;
        let mut ymin: i32 = 0;
        let mut xmax: i32 = 0;
        let mut ymax: i32 = 0;
        let mut k: usize = 0;
        while k < n
            invariant
                n == offset@.len(),
                forall|j: int|
                    0 <= j < offset@.len() ==> -1_000_000 <= (#[trigger] offset@[j]).0 <= 1_000_000
                        && -1_000_000 <= offset@[j].1 <= 1_000_000,
                k <= n,
                xmin as int == spec_min_off(offset@, true, k as int),
                xmax as int == spec_max_off(offset@, true, k as int),
                ymin as int == spec_min_off(offset@, false, k as int),
                ymax as int == spec_max_off(offset@, false, k as int),
                -1_000_000 <= xmin <= 0 <= xmax <= 1_000_000,
                -1_000_000 <= ymin <= 0 <= ymax <= 1_000_000,
            decreases n - k,
        {
            proof {
                lemma_min_max_off(offset@, true, k as int);
                lemma_min_max_off(offset@, false, k as int);
            }
            let (x, y) = offset[k];
            if x < xmin {
                xmin = x;
            }
            if y < ymin {
                ymin = y;
            }
            if x > xmax {
                xmax = x;
            }
            if y > ymax {
                ymax = y;
            }
            k = k + 1;
        }
        if xmin == 0 && ymin == 0 && xmax == 0 && ymax == 0 {
            None
        } else {
            proof {
                lemma_min_max_off(offset@, true, n as int);
                lemma_min_max_off(offset@, false, n as int);
            }
            let w = (layout.width as i64 + xmin as i64 - xmax as i64) as u32;
            let h = (layout.height as i64 + ymin as i64 - ymax as i64) as u32;
            let mut out: Vec<Crop> = Vec::new();
            let mut j: usize = 0;
            while j < n
                invariant
                    n == offset@.len(),
                    forall|q: int|
                        0 <= q < offset@.len() ==> -1_000_000 <= (#[trigger] offset@[q]).0
                            <= 1_000_000 && -1_000_000 <= offset@[q].1 <= 1_000_000,
                    xmin as int == spec_min_off(offset@, true, n as int),
                    xmax as int == spec_max_off(offset@, true, n as int),
                    ymin as int == spec_min_off(offset@, false, n as int),
                    ymax as int == spec_max_off(offset@, false, n as int),
                    -1_000_000 <= xmin <= 0 <= xmax <= 1_000_000,
                    -1_000_000 <= ymin <= 0 <= ymax <= 1_000_000,
                    forall|q: int|
                        0 <= q < n ==> spec_min_off(offset@, true, n as int) <= (
                        #[trigger] offset@[q]).0 as int <= spec_max_off(offset@, true, n as int),
                    forall|q: int|
                        0 <= q < n ==> spec_min_off(offset@, false, n as int) <= (
                        #[trigger] offset@[q]).1 as int <= spec_max_off(offset@, false, n as int),
                    w as int == layout.width + xmin - xmax,
                    h as int == layout.height + ymin - ymax,
                    j <= n,
                    out@.len() == j,
                    forall|q: int|
                        0 <= q < j ==> #[trigger] out@[q] == (Crop {
                            x: ((-(xmin as int)) + offset@[q].0) as u32,
                            y: ((-(ymin as int)) + offset@[q].1) as u32,
                            w: w,
                            h: h,
                        }),
                decreases n - j,
            {
                let (dx, dy) = offset[j];
                out.push(
                    Crop {
                        x: ((-xmin) + dx) as u32,
                        y: ((-ymin) + dy) as u32,
                        w,
                        h,
                    },
                );
                j = j + 1;
            }
            Some(out)
        }
    }
}

} // verus!
