//! Inbetweening: which frame pairs are interpolated and at which fractions
//! of the motion, how a frame is handed to the optical-flow solver, and how
//! a frame is warped once the flow has been turned into sample positions.

use vstd::prelude::*;
use crate::raster::{Raster, Rgba, pixel_of_bytes, lemma_grid_position, lemma_grid_index};
use crate::frame::Frame;

verus! {

/// One output frame of an interpolation: frame `source` moved along the
/// flow towards frame `target` by `numerator / denominator` of the way.
/// A step with `numerator == 0` is `source` itself.
#[derive(Clone, Copy, Debug, PartialEq, Eq, Structural)]
pub struct InterpolationStep {
    pub source: usize,
    pub target: usize,
    pub numerator: usize,
    pub denominator: usize,
}

/// Why frames could not be interpolated.
#[derive(Clone, Copy, Debug, PartialEq, Eq, Structural)]
pub enum InterpolationError {
    /// Interpolation needs at least two frames; `got` were given.
    NotEnoughFrames { got: usize },
}

/// The frame that pair `p` of `n` frames moves towards: the next frame, and
/// after the last frame either the first one (looping) or the last one.
pub open spec fn pair_target(n: int, looped: bool, p: int) -> int {
    if p + 1 < n {
        p + 1
    } else if looped {
        0
    } else {
        n - 1
    }
}

/// Output frame `k` of `n` input frames with `inbetweens` frames inserted
/// after each: it belongs to pair `k / (inbetweens + 1)` and lies
/// `(k % (inbetweens + 1)) / (inbetweens + 1)` of the way along it.
pub open spec fn planned_step(n: int, inbetweens: int, looped: bool, k: int) -> InterpolationStep {
    let per = inbetweens + 1;
    let p = k / per;
    InterpolationStep {
        source: p as usize,
        target: pair_target(n, looped, p) as usize,
        numerator: (k % per) as usize,
        denominator: per as usize,
    }
}

/// The output frames of an interpolation, in order: for every input frame
/// the frame itself and then `inbetweens` frames moved towards the next one.
/// With `loop_seamlessly` the last frame moves towards the first; without,
/// towards itself. Fails when fewer than two frames are given.
pub fn plan_interpolation(frame_count: usize, inbetweens: usize, loop_seamlessly: bool) -> (res: Result<Vec<InterpolationStep>, InterpolationError>)
    requires
        frame_count >= 2 ==> frame_count * (inbetweens + 1) <= usize::MAX,
    ensures
        frame_count < 2 <==> res == Err::<Vec<InterpolationStep>, InterpolationError>(
            InterpolationError::NotEnoughFrames { got: frame_count },
        ),
        res is Ok || res == Err::<Vec<InterpolationStep>, InterpolationError>(
            InterpolationError::NotEnoughFrames { got: frame_count },
        ),
        res matches Ok(steps) ==> {
            &&& steps.len() == frame_count * (inbetweens + 1)
            &&& forall|k: int| 0 <= k < steps.len() ==> #[trigger] steps[k] == planned_step(
                frame_count as int,
                inbetweens as int,
                loop_seamlessly,
                k,
            )
            &&& forall|k: int| 0 <= k < steps.len() ==> {
                &&& (#[trigger] steps[k]).source == k / (inbetweens + 1)
                &&& steps[k].numerator == k % (inbetweens + 1)
                &&& steps[k].denominator == inbetweens + 1
                &&& steps[k].source + 1 < frame_count ==> steps[k].target == steps[k].source + 1
                &&& steps[k].source + 1 >= frame_count && loop_seamlessly ==> steps[k].target == 0
                &&& steps[k].source + 1 >= frame_count && !loop_seamlessly ==> steps[k].target
                    == frame_count - 1
            }
        },
{
    if frame_count < 2 {
        return Err(InterpolationError::NotEnoughFrames { got: frame_count });
    }
    assert(inbetweens + 1 <= frame_count * (inbetweens + 1)) by (nonlinear_arith)
        requires
            frame_count >= 2,
    ;
    let per: usize = inbetweens + 1;
    let total: usize = frame_count * per;
    let mut steps: Vec<InterpolationStep> = Vec::new();
    let mut k: usize = 0;
    while k < total
        invariant
            frame_count >= 2,
            per == inbetweens + 1,
            total == frame_count * per,
            k <= total,
            steps.len() == k,
            forall|m: int| 0 <= m < k ==> #[trigger] steps@[m] == planned_step(
                frame_count as int,
                inbetweens as int,
                loop_seamlessly,
                m,
            ),
        decreases total - k,
    {
        let p: usize = k / per;
        let j: usize = k % per;
        proof {
            lemma_grid_position(per as nat, frame_count as nat, k as int);
            assert(per * frame_count == frame_count * per) by (nonlinear_arith);
        }
        let target: usize = if p + 1 < frame_count {
            p + 1
        } else if loop_seamlessly {
            0
        } else {
            frame_count - 1
        };
        steps.push(InterpolationStep { source: p, target, numerator: j, denominator: per });
        k = k + 1;
    }
    proof {
        assert forall|k: int| 0 <= k < steps.len() implies {
            &&& (#[trigger] steps@[k]).source == k / (inbetweens + 1)
            &&& steps@[k].numerator == k % (inbetweens + 1)
            &&& steps@[k].denominator == inbetweens + 1
            &&& steps@[k].source + 1 < frame_count ==> steps@[k].target == steps@[k].source + 1
            &&& steps@[k].source + 1 >= frame_count && loop_seamlessly ==> steps@[k].target == 0
            &&& steps@[k].source + 1 >= frame_count && !loop_seamlessly ==> steps@[k].target
                == frame_count - 1
        } by {
            lemma_planned_step(frame_count as int, inbetweens as int, loop_seamlessly, k);
        }
    }
    Ok(steps)
}

/// Output frame `p * (inbetweens + 1) + j` of an interpolation is frame `p`
/// moved `j / (inbetweens + 1)` of the way towards its pair's target: the
/// output frames come pair by pair, at fractions rising from zero, and the
/// first one of every pair is the input frame itself.
pub proof fn lemma_step_in_pair(n: int, inbetweens: int, looped: bool, p: int, j: int)
    requires
        0 <= p < n,
        inbetweens >= 0,
        0 <= j <= inbetweens,
        n * (inbetweens + 1) <= usize::MAX,
    ensures
        0 <= p * (inbetweens + 1) + j < n * (inbetweens + 1),
        planned_step(n, inbetweens, looped, p * (inbetweens + 1) + j) == (InterpolationStep {
            source: p as usize,
            target: pair_target(n, looped, p) as usize,
            numerator: j as usize,
            denominator: (inbetweens + 1) as usize,
        }),
{
    lemma_grid_index((inbetweens + 1) as nat, n as nat, j, p);
    assert(p <= n) by (nonlinear_arith) requires 0 <= p < n;
    assert(n <= n * (inbetweens + 1)) by (nonlinear_arith) requires n >= 0, inbetweens >= 0;
    assert((inbetweens + 1) * n == n * (inbetweens + 1)) by (nonlinear_arith);
}


/// Step `k` of a plan belongs to pair `k / (inbetweens + 1)`, lies
/// `(k % (inbetweens + 1)) / (inbetweens + 1)` of the way along it, and that
/// pair moves towards the next frame; only the pair of the last frame moves
/// towards the first frame (looping) or towards itself (not looping).
pub proof fn lemma_planned_step(n: int, inbetweens: int, looped: bool, k: int)
    requires
        n >= 2,
        inbetweens >= 0,
        0 <= k < n * (inbetweens + 1),
        n * (inbetweens + 1) <= usize::MAX,
    ensures
        ({
            let s = planned_step(n, inbetweens, looped, k);
            &&& s.source == k / (inbetweens + 1)
            &&& 0 <= s.source < n
            &&& s.numerator == k % (inbetweens + 1)
            &&& s.numerator < s.denominator
            &&& s.denominator == inbetweens + 1
            &&& s.source + 1 < n ==> s.target == s.source + 1
            &&& s.source + 1 >= n && looped ==> s.target == 0
            &&& s.source + 1 >= n && !looped ==> s.target == n - 1
        }),
{
    assert((inbetweens + 1) * n == n * (inbetweens + 1)) by (nonlinear_arith);
    assert(inbetweens + 1 <= n * (inbetweens + 1)) by (nonlinear_arith)
        requires n >= 2, inbetweens >= 0;
    lemma_grid_position((inbetweens + 1) as nat, n as nat, k);
}

/// Pixels less opaque than this are handed to the flow solver as black.
pub const ALPHA_THRESHOLD: u8 = 30;

/// Channel `c` (0 = blue, 1 = green, 2 = red) of a pixel as the flow solver
/// sees it: black where the pixel is nearly transparent.
pub open spec fn bgr_channel(p: Rgba, c: int) -> u8 {
    if p.a < ALPHA_THRESHOLD {
        0
    } else if c == 0 {
        p.b
    } else if c == 1 {
        p.g
    } else {
        p.r
    }
}

/// The frame as packed, row-major BGR bytes (alpha dropped), with nearly
/// transparent pixels turned black.
pub fn frame_to_bgr(frame: &Frame) -> (out: Vec<u8>)
    requires
        frame.wf(),
    ensures
        out@.len() == 3 * (frame.width * frame.height),
        forall|i: int, c: int|
            0 <= i < frame.width * frame.height && 0 <= c < 3 ==> #[trigger] out@[3 * i + c]
                == bgr_channel(frame@.pixels[i], c),
        forall|i: int|
            0 <= i < frame.width * frame.height ==> {
                &&& #[trigger] frame.data@[4 * i + 3] < 30 ==> out@[3 * i] == 0 && out@[3 * i + 1] == 0
                    && out@[3 * i + 2] == 0
                &&& frame.data@[4 * i + 3] >= 30 ==> out@[3 * i] == frame.data@[4 * i + 2] && out@[3
                    * i + 1] == frame.data@[4 * i + 1] && out@[3 * i + 2] == frame.data@[4 * i]
            },
{
    let len: usize = frame.data.len();
    let n: usize = len / 4;
    let mut out: Vec<u8> = Vec::new();
    let mut i: usize = 0;
    while i < n
        invariant
            frame.wf(),
            n == frame.width * frame.height,
            len == frame.data@.len(),
            i <= n,
            out@.len() == 3 * i,
            forall|m: int, c: int|
                0 <= m < i && 0 <= c < 3 ==> #[trigger] out@[3 * m + c] == bgr_channel(
                    frame@.pixels[m],
                    c,
                ),
        decreases n - i,
    {
        assert(4 * i + 3 < frame.data@.len());
        let r = frame.data[4 * i];
        let g = frame.data[4 * i + 1];
        let b = frame.data[4 * i + 2];
        let a = frame.data[4 * i + 3];
        let ghost p = frame@.pixels[i as int];
        assert(p == Rgba { r, g, b, a });
        let ghost before = out@;
        if a < ALPHA_THRESHOLD {
            out.push(0);
            out.push(0);
            out.push(0);
        } else {
            out.push(b);
            out.push(g);
            out.push(r);
        }
        assert forall|m: int, c: int| 0 <= m < i + 1 && 0 <= c < 3 implies #[trigger] out@[3 * m + c]
            == bgr_channel(frame@.pixels[m], c) by {
            if m < i {
                assert(out@[3 * m + c] == before[3 * m + c]);
            }
        }
        i = i + 1;
    }
    proof {
        assert forall|i: int| 0 <= i < frame.width * frame.height implies {
            &&& #[trigger] frame.data@[4 * i + 3] < 30 ==> out@[3 * i] == 0 && out@[3 * i + 1] == 0
                && out@[3 * i + 2] == 0
            &&& frame.data@[4 * i + 3] >= 30 ==> out@[3 * i] == frame.data@[4 * i + 2] && out@[3 * i
                + 1] == frame.data@[4 * i + 1] && out@[3 * i + 2] == frame.data@[4 * i]
        } by {
            lemma_bgr_channel(frame@.pixels[i]);
            assert(out@[3 * i + 0] == bgr_channel(frame@.pixels[i], 0));
            assert(out@[3 * i + 1] == bgr_channel(frame@.pixels[i], 1));
            assert(out@[3 * i + 2] == bgr_channel(frame@.pixels[i], 2));
        }
    }
    out
}

/// A pixel less opaque than 30, fully transparent ones included, reaches the
/// flow solver as black; any other pixel as its blue, green and red.
pub proof fn lemma_bgr_channel(p: Rgba)
    ensures
        p.a < 30 ==> bgr_channel(p, 0) == 0 && bgr_channel(p, 1) == 0 && bgr_channel(p, 2) == 0,
        p.a >= 30 ==> bgr_channel(p, 0) == p.b && bgr_channel(p, 1) == p.g && bgr_channel(p, 2) == p.r,
{
}

/// `v` clamped into `0 ..= size - 1`.
pub open spec fn clamp_coord(v: int, size: int) -> int {
    if v < 0 {
        0
    } else if v > size - 1 {
        size - 1
    } else {
        v
    }
}

/// Pixel `i` of the warped frame: the frame's pixel at sample position
/// `sources[i]`, clamped into the frame.
pub open spec fn warped_pixel(frame: Raster, sources: Seq<(i32, i32)>, i: int) -> Rgba {
    let s = sources[i];
    frame.at(clamp_coord(s.0 as int, frame.width as int), clamp_coord(s.1 as int, frame.height as int))
}

/// The frame warped by per-pixel sample positions: pixel `(x, y)` is taken
/// from `sources[y * width + x]`, clamped into the frame.
pub open spec fn warped(frame: Raster, sources: Seq<(i32, i32)>) -> Raster {
    Raster {
        width: frame.width,
        height: frame.height,
        pixels: Seq::new(frame.width * frame.height, |i: int| warped_pixel(frame, sources, i)),
    }
}

/// Warps a frame: every output pixel is copied from its sample position
/// (the pixel's position moved against the flow and rounded), clamped into
/// the frame.
pub fn apply_flow(frame: &Frame, sources: &Vec<(i32, i32)>) -> (out: Frame)
    requires
        frame.wf(),
        sources@.len() == frame.width * frame.height,
        frame.width * frame.height > 0 ==> frame.width <= 0x8000_0000 && frame.height <= 0x8000_0000,
    ensures
        out.wf(),
        out.width == frame.width,
        out.height == frame.height,
        out@ == warped(frame@, sources@),
        forall|i: int|
            0 <= i < frame.width * frame.height ==> {
                let sx = (#[trigger] sources@[i]).0 as int;
                let sy = sources@[i].1 as int;
                let cx = if sx < 0 { 0 } else if sx >= frame.width { frame.width - 1 } else { sx };
                let cy = if sy < 0 { 0 } else if sy >= frame.height { frame.height - 1 } else { sy };
                out@.pixels[i] == frame@.pixels[cy * frame.width + cx]
            },
{
    let w = frame.width;
    let h = frame.height;
    let n: usize = sources.len();
    let mut data: Vec<u8> = Vec::new();
    let mut k: usize = 0;
    while k < n
        invariant
            frame.wf(),
            w == frame.width,
            h == frame.height,
            n == sources@.len(),
            n == w * h,
            k <= n,
            data@.len() == 4 * k,
            forall|m: int| 0 <= m < k ==> #[trigger] pixel_of_bytes(data@, m) == warped_pixel(
                frame@,
                sources@,
                m,
            ),
        decreases n - k,
    {
        proof {
            lemma_grid_position(w as nat, h as nat, k as int);
        }
        let s = sources[k];
        let sx: u32 = if s.0 < 0 {
            0
        } else if s.0 as u32 > w - 1 {
            w - 1
        } else {
            s.0 as u32
        };
        let sy: u32 = if s.1 < 0 {
            0
        } else if s.1 as u32 > h - 1 {
            h - 1
        } else {
            s.1 as u32
        };
        let p = frame.pixel(sx, sy);
        let ghost before = data@;
        data.push(p.r);
        data.push(p.g);
        data.push(p.b);
        data.push(p.a);
        assert forall|m: int| 0 <= m < k + 1 implies #[trigger] pixel_of_bytes(data@, m)
            == warped_pixel(frame@, sources@, m) by {
            if m < k {
                assert(pixel_of_bytes(data@, m) == pixel_of_bytes(before, m));
            }
        }
        k = k + 1;
    }
    let out = Frame { width: w, height: h, data };
    assert(out@.pixels =~= warped(frame@, sources@).pixels);
    proof {
        assert forall|i: int| 0 <= i < frame.width * frame.height implies {
            let sx = (#[trigger] sources@[i]).0 as int;
            let sy = sources@[i].1 as int;
            let cx = if sx < 0 { 0 } else if sx >= frame.width { frame.width - 1 } else { sx };
            let cy = if sy < 0 { 0 } else if sy >= frame.height { frame.height - 1 } else { sy };
            out@.pixels[i] == frame@.pixels[cy * frame.width + cx]
        } by {
            lemma_warped_pixel(frame@, sources@, i);
        }
    }
    out
}

/// Every pixel of a warped frame is the frame's pixel at its sample position
/// clamped into the frame: a sample left of or above the frame reads column
/// or row 0, one right of or below it the last column or row, and the
/// sampled position always lies inside the frame.
pub proof fn lemma_warped_pixel(frame: Raster, sources: Seq<(i32, i32)>, i: int)
    requires
        frame.wf(),
        sources.len() == frame.width * frame.height,
        0 <= i < frame.width * frame.height,
    ensures
        ({
            let sx = sources[i].0 as int;
            let sy = sources[i].1 as int;
            let cx = if sx < 0 { 0 } else if sx >= frame.width { frame.width - 1 } else { sx };
            let cy = if sy < 0 { 0 } else if sy >= frame.height { frame.height - 1 } else { sy };
            &&& 0 <= cx < frame.width
            &&& 0 <= cy < frame.height
            &&& warped(frame, sources).pixels[i] == frame.at(cx, cy)
            &&& warped(frame, sources).pixels[i] == frame.pixels[cy * frame.width + cx]
        }),
{
    lemma_grid_position(frame.width, frame.height, i);
}

/// Sample positions that name every pixel's own position leave the frame
/// as it is.
pub proof fn lemma_identity_flow(frame: Raster, sources: Seq<(i32, i32)>)
    requires
        frame.wf(),
        sources.len() == frame.width * frame.height,
        forall|i: int|
            0 <= i < sources.len() ==> #[trigger] sources[i] == (
                (i % (frame.width as int)) as i32,
                (i / (frame.width as int)) as i32,
            ),
        frame.width <= 0x8000_0000,
        frame.height <= 0x8000_0000,
    ensures
        warped(frame, sources) == frame,
{
    let out = warped(frame, sources);
    assert forall|i: int| 0 <= i < out.pixels.len() implies out.pixels[i] == frame.pixels[i] by {
        lemma_grid_position(frame.width, frame.height, i);
        let x = i % (frame.width as int);
        let y = i / (frame.width as int);
        assert(sources[i] == (x as i32, y as i32));
        assert(y * frame.width + x == i);
    }
    assert(out.pixels =~= frame.pixels);
}

} // verus!
