//! Lists files by pattern, optionally restricted to a frame window.

use vstd::prelude::*;

use crate::slicer::spec_ceil_div;

verus! {

/// A frame range, defined by start, end (both optional) and step.
#[derive(Clone, Copy, Debug, PartialEq, Eq, Structural)]
pub struct FrameRange {
    pub start: Option<i32>,
    pub end: Option<i32>,
    pub step: u32,
}

impl FrameRange {
    /// Structural invariant: a positive step and bounded nonnegative
    /// bounds.
    pub open spec fn wf(self) -> bool {
        &&& 1 <= self.step <= 0x1000_0000
        &&& match self.start {
            Some(s) => 0 <= s <= 0x4000_0000,
            None => true,
        }
        &&& match self.end {
            Some(e) => 0 <= e <= 0x4000_0000,
            None => true,
        }
    }

    /// Creates a new FrameRange.
    pub fn new(start: Option<i32>, end: Option<i32>, step: u32) -> (r: Self)
        ensures
            r.start == start,
            r.end == end,
            r.step == step,
    {
        FrameRange { start, end, step }
    }

    /// Creates a new FrameRange without start and end, and with a step of 1.
    pub fn empty() -> (r: Self)
        ensures
            r.start is None,
            r.end is None,
            r.step == 1,
            r.wf(),
    {
        FrameRange { start: None, end: None, step: 1 }
    }

    /// The start frame.
    pub fn start(&self) -> (r: Option<i32>)
        ensures
            r == self.start,
    {
        self.start
    }

    /// The end frame (exclusive).
    pub fn end(&self) -> (r: Option<i32>)
        ensures
            r == self.end,
    {
        self.end
    }

    /// The step.
    pub fn step(&self) -> (r: u32)
        ensures
            r == self.step,
    {
        self.step
    }

    /// The total number of frames between start and end, irrespective of
    /// step; `None` unless both bounds are given.
    pub fn range(&self) -> (r: Option<i32>)
        requires
            self.wf(),
        ensures
            match (self.start, self.end) {
                (Some(s), Some(e)) => r == Some((e - s) as i32),
                _ => r is None,
            },
    {
        match (self.start, self.end) {
            (Some(s), Some(e)) => Some(e - s),
            _ => None,
        }
    }
}

/// The first source index a frame window keeps.
pub open spec fn spec_window_start(fr: FrameRange) -> int {
    match fr.start {
        Some(st) => st as int,
        None => 0,
    }
}

/// The source indices a frame window keeps of `n` items: the arithmetic
/// sequence from `start` below `end` with the given step, clipped to
/// `[0, n)`.
pub open spec fn spec_window_len(start: int, end: Option<i32>, step: int, n: int) -> int {
    let lim = match end {
        Some(e) => {
            if e > n {
                n
            } else {
                e as int
            }
        },
        None => n,
    };
    if start >= lim {
        0
    } else {
        spec_ceil_div(lim - start, step)
    }
}

/// Computes the source indices a frame window keeps of `n` items: the
/// arithmetic sequence `start..end` stepped by `step`, clipped to `[0, n)`.
pub fn window_indices(range: &FrameRange, n: usize) -> (r: Vec<usize>)
    requires
        range.wf(),
        n <= 0x4000_0000,
    ensures
        ({
            let start = match range.start {
                Some(s) => s as int,
                None => 0,
            };
            let lim = match range.end {
                Some(e) => {
                    if e > n {
                        n as int
                    } else {
                        e as int
                    }
                },
                None => n as int,
            };
            &&& r@.len() == spec_window_len(start, range.end, range.step as int, n as int)
            &&& forall|j: int|
                0 <= j < r@.len() ==> #[trigger] r@[j] == start + j * (range.step as int)
            &&& forall|j: int| 0 <= j < r@.len() ==> #[trigger] r@[j] < lim
            &&& forall|a: int, b: int| 0 <= a < b < r@.len() ==> r@[a] < r@[b]
        }),
{
    let start: usize = match range.start {
        Some(s) => s as usize,
        None => 0,
    };
    let lim: usize = match range.end {
        Some(e) => {
            if e as usize > n {
                n
            } else {
                e as usize
            }
        },
        None => n,
    };
    let step = range.step as usize;
    let mut out: Vec<usize> = Vec::new();
    let mut i: usize = start;
    proof {
        vstd::arithmetic::div_mod::lemma_small_mod(0, step as nat);
        vstd::arithmetic::div_mod::lemma_div_of0(step as int);
    }
    while i < lim
        invariant
            1 <= step <= 0x1000_0000,
            start <= 0x4000_0000,
            lim <= 0x4000_0000,
            i >= start,
            i <= start + 0x4000_0000 + step,
            (i - start) as int % (step as int) == 0,
            out@.len() == (i - start) as int / (step as int),
            forall|j: int| 0 <= j < out@.len() ==> #[trigger] out@[j] == start + j * (step as int),
            forall|j: int| 0 <= j < out@.len() ==> #[trigger] out@[j] < lim,
            forall|a: int, b: int| 0 <= a < b < out@.len() ==> out@[a] < out@[b],
        decreases lim + step - i,
    {
        proof {
            vstd::arithmetic::div_mod::lemma_fundamental_div_mod(
                (i - start) as int,
                step as int,
            );
            assert(out@.len() * (step as int) == i - start) by (nonlinear_arith)
                requires
                    (i - start) as int == (step as int) * ((i - start) as int / (step as int)) + (
                    i - start) as int % (step as int),
                    (i - start) as int % (step as int) == 0,
                    out@.len() == (i - start) as int / (step as int);
        }
        out.push(i);
        proof {
            vstd::arithmetic::div_mod::lemma_mod_add_multiples_vanish(
                (i - start) as int,
                step as int,
            );
            vstd::arithmetic::div_mod::lemma_div_by_multiple(
                out@.len() as int,
                step as int,
            );
            assert(out@.len() * (step as int) == (i + step - start) as int) by (nonlinear_arith)
                requires
                    (out@.len() - 1) * (step as int) == i - start,
            ;
            assert((i + step - start) as int / (step as int) == out@.len());
            assert(forall|a: int, b: int|
                0 <= a < b < out@.len() ==> #[trigger] out@[a] < #[trigger] out@[b]) by {
                assert forall|a: int, b: int|
                    0 <= a < b < out@.len() implies #[trigger] out@[a] < #[trigger] out@[b] by {
                    assert(out@[a] == start + a * (step as int));
                    assert(out@[b] == start + b * (step as int));
                    assert(a * (step as int) < b * (step as int)) by (nonlinear_arith)
                        requires
                            a < b,
                            step >= 1;
                }
            }
        }
        i = i + step;
    }
    proof {
        if start < lim {
            assert(i >= lim);
            vstd::arithmetic::div_mod::lemma_fundamental_div_mod((i - start) as int, step as int);
            assert(out@.len() * (step as int) == i - start) by (nonlinear_arith)
                requires
                    (i - start) as int == (step as int) * ((i - start) as int / (step as int)) + (
                    i - start) as int % (step as int),
                    (i - start) as int % (step as int) == 0,
                    out@.len() == (i - start) as int / (step as int);
            assert(out@.len() >= 1) by (nonlinear_arith)
                requires
                    out@.len() * (step as int) == i - start,
                    i > start,
                    step >= 1,
                    out@.len() >= 0;
            let len = out@.len() as int;
            assert(out@[len - 1] == start + (len - 1) * (step as int));
            assert(out@[len - 1] < lim);
            assert((len - 1) * (step as int) == len * (step as int) - step) by (nonlinear_arith);
            // start + (len - 1) * step < lim <= i == start + len * step
            let x = lim - start + step - 1;
            let rr = x - len * (step as int);
            assert(x == len * (step as int) + rr);
            assert(0 <= rr < step);
            vstd::arithmetic::div_mod::lemma_fundamental_div_mod_converse(
                x,
                step as int,
                len,
                rr,
            );
        }
        let s0: int = match range.start {
            Some(s) => s as int,
            None => 0,
        };
        let lim0: int = match range.end {
            Some(e) => {
                if e > n {
                    n as int
                } else {
                    e as int
                }
            },
            None => n as int,
        };
        assert(s0 == start as int);
        assert(lim0 == lim as int);
        if start >= lim {
            if out@.len() > 0 {
                assert(out@[0] == start as int + 0 * (step as int));
                assert(0 * (step as int) == 0) by (nonlinear_arith);
                assert(out@[0] < lim as int);
                assert(false);
            }
        }
        assert(out@.len() == spec_window_len(s0, range.end, range.step as int, n as int));
        assert(forall|j: int|
            0 <= j < out@.len() ==> #[trigger] out@[j] == s0 + j * (range.step as int));
        assert(forall|j: int| 0 <= j < out@.len() ==> #[trigger] out@[j] < lim0);
    }
    out
}

/// Lists files by searching for a file pattern.
#[derive(Debug)]
pub struct FileLister {
    pub pattern: String,
    pub frames: Option<FrameRange>,
}

#[verifier::external_type_specification]
#[verifier::external_body]
pub struct ExPatternError(glob::PatternError);

/// Whether glob accepts the search pattern: its syntax check is a function
/// of the pattern string alone.
pub uninterp spec fn spec_pattern_ok(pattern: Seq<char>) -> bool;

/// Relies on glob::glob: the files matching the pattern, as the file system
/// holds them at the time of the call; fails exactly where the pattern
/// itself is invalid.
#[verifier::external_body]
fn list_files(pattern: &str) -> (r: Result<Vec<String>, glob::PatternError>)
    ensures
        r is Ok <==> spec_pattern_ok(pattern@),
{
    let paths = glob::glob(pattern)?;
    Ok(
        paths.filter(|p| p.is_ok() && p.as_ref().unwrap().is_file()).map(
            |p| p.unwrap().to_string_lossy().into_owned(),
        ).collect(),
    )
}

/// Picks the listed elements, in order.
fn select_at(files: &Vec<String>, idxs: &Vec<usize>) -> (r: Vec<String>)
    requires
        forall|j: int| 0 <= j < idxs@.len() ==> #[trigger] idxs@[j] < files@.len(),
    ensures
        r@.len() == idxs@.len(),
        forall|j: int| 0 <= j < r@.len() ==> #[trigger] r@[j]@ == files@[idxs@[j] as int]@,
{
    let mut out: Vec<String> = Vec::new();
    let mut j: usize = 0;
    while j < idxs.len()
        invariant
            forall|k: int| 0 <= k < idxs@.len() ==> #[trigger] idxs@[k] < files@.len(),
            j <= idxs@.len(),
            out@.len() == j,
            forall|k: int| 0 <= k < j ==> #[trigger] out@[k]@ == files@[idxs@[k] as int]@,
        decreases idxs@.len() - j,
    {
        out.push(files[idxs[j]].clone());
        j = j + 1;
    }
    out
}

impl FileLister {
    /// Creates a new lister from a pattern.
    pub fn new(pattern: &str, frames: &Option<FrameRange>) -> (r: Self)
        ensures
            r.pattern@ == pattern@,
            r.frames == frames,
    {
        FileLister { pattern: pattern.to_owned(), frames: *frames }
    }

    /// Lists all files that match this lister's pattern, restricted to the
    /// frame window where one is set: the files at the arithmetic sequence
    /// of indices `start..end` stepped by `step`, clipped to the match
    /// count. Fails exactly where the pattern is invalid.
    pub fn files_vec(&self) -> (r: Result<Vec<String>, glob::PatternError>)
        requires
            match self.frames {
                Some(fr) => fr.wf(),
                None => true,
            },
        ensures
            r is Ok <==> spec_pattern_ok(self.pattern@),
            r matches Ok(v) ==> match self.frames {
                Some(fr) => exists|total: int|
                    0 <= total <= 0x4000_0000 && v@.len() == #[trigger] spec_window_len(
                        spec_window_start(fr),
                        fr.end,
                        fr.step as int,
                        total,
                    ),
                None => true,
            },
            r matches Ok(v) ==> match self.frames {
                Some(fr) => match fr.end {
                    Some(e) => v@.len() <= e,
                    None => true,
                },
                None => true,
            },
    {
        let all = match list_files(self.pattern.as_str()) {
            Ok(v) => v,
            Err(e) => {
                return Err(e);
            },
        };
        match &self.frames {
            Some(fr) => {
                let n = if all.len() > 0x4000_0000 {
                    0x4000_0000
                } else {
                    all.len()
                };
                let idxs = window_indices(fr, n);
                let picked = select_at(&all, &idxs);
                proof {
                    let st = spec_window_start(*fr);
                    assert(picked@.len() == spec_window_len(
                        st,
                        fr.end,
                        fr.step as int,
                        n as int,
                    ));
                    if fr.end is Some && picked@.len() > 0 {
                        let e = fr.end->0 as int;
                        let len = idxs@.len() as int;
                        assert(idxs@[len - 1] == st + (len - 1) * (fr.step as int));
                        assert((len - 1) * (fr.step as int) >= len - 1) by (nonlinear_arith)
                            requires
                                fr.step >= 1,
                                len >= 1;
                        assert(len <= e);
                    }
                }
                Ok(picked)
            },
            None => Ok(all),
        }
    }
}

} // verus!
