//! Cutting a spritesheet into frames and laying frames out on a sheet.
//!
//! Frames sit in a grid, left to right and top to bottom: frame `i` of a
//! grid `cols` wide occupies cell `(i % cols, i / cols)`.

use vstd::prelude::*;
use crate::raster::{Raster, Rgba, min_nat, transparent, lemma_from_fn_at, lemma_raster_ext};
use vstd::arithmetic::div_mod::{lemma_fundamental_div_mod, lemma_fundamental_div_mod_converse, lemma_mod_pos_bound};
use crate::frame::{Frame, crop_frame, replace_frame};

verus! {

/// Why a spritesheet could not be cut or assembled.
#[derive(Clone, Copy, Debug, PartialEq, Eq, Structural)]
pub enum SpritesheetError {
    /// The cell of frame `index`, with its corner at `(x, y)`, reaches past
    /// the sheet of size `sheet_width` x `sheet_height`.
    FrameOutOfBounds { index: usize, x: u64, y: u64, sheet_width: u32, sheet_height: u32 },
    /// There were no frames to lay out.
    NoFrames,
}

/// Left edge of the cell of frame `i` in a grid `cols` wide of cells `fw` wide.
pub open spec fn cell_x(i: int, cols: int, fw: int) -> int {
    (i % cols) * fw
}

/// Top edge of the cell of frame `i` in a grid `cols` wide of cells `fh` high.
pub open spec fn cell_y(i: int, cols: int, fh: int) -> int {
    (i / cols) * fh
}

/// The cell of frame `i` lies within a sheet of the given size.
pub open spec fn cell_fits(sheet_w: int, sheet_h: int, cols: int, fw: int, fh: int, i: int) -> bool {
    cell_x(i, cols, fw) + fw <= sheet_w && cell_y(i, cols, fh) + fh <= sheet_h
}

/// What the grid cell of frame `i` holds on the sheet.
pub open spec fn cell_of(sheet: Raster, cols: int, fw: nat, fh: nat, i: int) -> Raster {
    sheet.crop(cell_x(i, cols, fw as int) as nat, cell_y(i, cols, fh as int) as nat, fw, fh)
}

/// Number of columns of a sheet of `n` frames asked to be `columns` wide.
pub open spec fn sheet_columns(n: nat, columns: nat) -> nat {
    min_nat(columns, n)
}

/// Number of rows that `n` frames fill in a grid `cols` wide.
pub open spec fn sheet_rows(n: nat, cols: nat) -> nat {
    ((n + cols - 1) / (cols as int)) as nat
}

/// `base` with frames `0 .. k` drawn into their cells, in order.
pub open spec fn paste_frames(base: Raster, frames: Seq<Raster>, cols: nat, fw: nat, fh: nat, k: nat) -> Raster
    decreases k,
{
    if k == 0 {
        base
    } else {
        let i = (k - 1) as nat;
        paste_frames(base, frames, cols, fw, fh, i).replace(
            frames[i as int],
            cell_x(i as int, cols as int, fw as int),
            cell_y(i as int, cols as int, fh as int),
        )
    }
}

/// The sheet that `frames` make, laid out at most `columns` wide: a
/// transparent sheet sized by the first frame, every frame drawn in turn
/// into its cell.
pub open spec fn assembled_sheet(frames: Seq<Raster>, columns: nat) -> Raster {
    let n = frames.len();
    let cols = sheet_columns(n, columns);
    let fw = frames[0].width;
    let fh = frames[0].height;
    paste_frames(Raster::blank(fw * cols, fh * sheet_rows(n, cols)), frames, cols, fw, fh, n)
}

/// The images of a sequence of frames.
pub open spec fn views(frames: Seq<Frame>) -> Seq<Raster> {
    frames.map_values(|f: Frame| f@)
}

/// Cuts `frame_count` frames of `frame_width` x `frame_height` out of a
/// sheet, left to right and top to bottom, with as many columns as whole
/// frames fit across the sheet. Fails on the first frame whose cell reaches
/// past the sheet.
pub fn split_spritesheet(sheet: &Frame, frame_width: u32, frame_height: u32, frame_count: usize) -> (res: Result<Vec<Frame>, SpritesheetError>)
    requires
        sheet.wf(),
        frame_width > 0,
        frame_count > 0 ==> frame_width <= sheet.width,
        frame_count <= u32::MAX,
    ensures
        ({
            let cols = (sheet.width / frame_width) as int;
            let sw = sheet.width as int;
            let sh = sheet.height as int;
            let fw = frame_width as int;
            let fh = frame_height as int;
            &&& res is Ok <==> (forall|i: int| 0 <= i < frame_count ==> #[trigger] cell_fits(sw, sh, cols, fw, fh, i))
            &&& res matches Ok(frames) ==> {
                &&& frames.len() == frame_count
                &&& forall|i: int| 0 <= i < frame_count ==> {
                    &&& (#[trigger] frames[i]).wf()
                    &&& frames[i].width == frame_width
                    &&& frames[i].height == frame_height
                    &&& frames[i]@ == cell_of(sheet@, cols, frame_width as nat, frame_height as nat, i)
                }
            }
            &&& res matches Err(e) ==> match e {
                SpritesheetError::FrameOutOfBounds { index, x, y, sheet_width, sheet_height } => {
                    &&& index < frame_count
                    &&& !cell_fits(sw, sh, cols, fw, fh, index as int)
                    &&& forall|j: int| 0 <= j < index ==> #[trigger] cell_fits(sw, sh, cols, fw, fh, j)
                    &&& x == cell_x(index as int, cols, fw)
                    &&& y == cell_y(index as int, cols, fh)
                    &&& sheet_width == sheet.width
                    &&& sheet_height == sheet.height
                },
                SpritesheetError::NoFrames => false,
            }
        }),
        ({
            let cols = (sheet.width / frame_width) as int;
            let fw = frame_width as int;
            let fh = frame_height as int;
            &&& res matches Ok(frames) ==> forall|i: int, x: int, y: int|
                0 <= i < frame_count && 0 <= x < fw && 0 <= y < fh ==> #[trigger] frames[i]@.at(x, y)
                    == sheet@.at((i % cols) * fw + x, (i / cols) * fh + y)
        }),
{
    let cols: u32 = sheet.width / frame_width;
    proof {
        if frame_count > 0 {
            let (sw, fw) = (sheet.width as int, frame_width as int);
            assert(sw / fw >= 1) by (nonlinear_arith)
                requires
                    0 < fw <= sw,
            ;
        }
    }
    let ghost icols = cols as int;
    let mut frames: Vec<Frame> = Vec::new();
    let mut i: usize = 0;
    while i < frame_count
        invariant
            sheet.wf(),
            frame_width > 0,
            frame_count <= u32::MAX,
            cols == sheet.width / frame_width,
            icols == cols as int,
            frame_count > 0 ==> cols > 0,
            i <= frame_count,
            frames.len() == i,
            forall|j: int| 0 <= j < i ==> #[trigger] cell_fits(sheet.width as int, sheet.height as int, icols, frame_width as int, frame_height as int, j),
            forall|j: int| 0 <= j < i ==> {
                &&& (#[trigger] frames@[j]).wf()
                &&& frames@[j].width == frame_width
                &&& frames@[j].height == frame_height
                &&& frames@[j]@ == cell_of(sheet@, icols, frame_width as nat, frame_height as nat, j)
            },
        decreases frame_count - i,
    {
        let iu: u32 = i as u32;
        let col: u32 = iu % cols;
        let row: u32 = iu / cols;
        assert((col as u64) * (frame_width as u64) <= 0xFFFF_FFFFu64 * 0xFFFF_FFFFu64) by (nonlinear_arith)
            requires col <= 0xFFFF_FFFFu32, frame_width <= 0xFFFF_FFFFu32;
        assert((row as u64) * (frame_height as u64) <= 0xFFFF_FFFFu64 * 0xFFFF_FFFFu64) by (nonlinear_arith)
            requires row <= 0xFFFF_FFFFu32, frame_height <= 0xFFFF_FFFFu32;
        let x: u64 = (col as u64) * (frame_width as u64);
        let y: u64 = (row as u64) * (frame_height as u64);
        assert(x == cell_x(i as int, icols, frame_width as int));
        assert(y == cell_y(i as int, icols, frame_height as int));
        if x + frame_width as u64 > sheet.width as u64 || y + frame_height as u64 > sheet.height as u64 {
            assert(!cell_fits(sheet.width as int, sheet.height as int, icols, frame_width as int, frame_height as int, i as int));
            return Err(SpritesheetError::FrameOutOfBounds {
                index: i,
                x,
                y,
                sheet_width: sheet.width,
                sheet_height: sheet.height,
            });
        }
        let frame = crop_frame(sheet, x as u32, y as u32, frame_width, frame_height);
        frames.push(frame);
        i = i + 1;
    }
    proof {
        let fw = frame_width as int;
        let fh = frame_height as int;
        assert forall|i: int, x: int, y: int|
            0 <= i < frame_count && 0 <= x < fw && 0 <= y < fh implies #[trigger] frames@[i]@.at(x, y)
                == sheet@.at((i % icols) * fw + x, (i / icols) * fh + y) by {
            assert(cell_fits(sheet.width as int, sheet.height as int, icols, fw, fh, i));
            let bx = cell_x(i, icols, fw);
            let by = cell_y(i, icols, fh);
            lemma_from_fn_at(frame_width as nat, frame_height as nat, |a: int, b: int| sheet@.at(bx + a, by + b), x, y);
        }
    }
    Ok(frames)
}

/// Lays `frames` out on one sheet, at most `columns` wide, left to right and
/// top to bottom. The sheet is sized by the first frame: as many columns as
/// frames (up to `columns`) and as many rows as they fill. It starts
/// transparent and each frame is drawn into its cell in turn.
pub fn assemble_spritesheet(frames: &[Frame], columns: usize) -> (res: Result<Frame, SpritesheetError>)
    requires
        forall|i: int| 0 <= i < frames@.len() ==> (#[trigger] frames@[i]).wf(),
        frames@.len() > 0 ==> columns > 0,
        frames@.len() > 0 ==> ({
            let cols = sheet_columns(frames@.len(), columns as nat);
            let w = frames@[0].width * cols;
            let h = frames@[0].height * sheet_rows(frames@.len(), cols);
            &&& w <= u32::MAX
            &&& h <= u32::MAX
            &&& 4 * (w * h) <= usize::MAX
        }),
    ensures
        frames@.len() == 0 <==> res == Err::<Frame, SpritesheetError>(SpritesheetError::NoFrames),
        res matches Ok(sheet) ==> {
            let cols = sheet_columns(frames@.len(), columns as nat);
            &&& sheet.wf()
            &&& sheet.width == frames@[0].width * cols
            &&& sheet.height == frames@[0].height * sheet_rows(frames@.len(), cols)
            &&& sheet@ == assembled_sheet(views(frames@), columns as nat)
        },
        res matches Ok(sheet) ==> {
            let n = frames@.len() as int;
            let c = if columns < n { columns as int } else { n };
            &&& sheet.width == frames@[0].width * c
            &&& sheet.height == frames@[0].height * ((n + c - 1) / c)
        },
        res is Ok || res == Err::<Frame, SpritesheetError>(SpritesheetError::NoFrames),
{
    let n = frames.len();
    if n == 0 {
        return Err(SpritesheetError::NoFrames);
    }
    let fw = frames[0].width;
    let fh = frames[0].height;
    let cols: usize = if columns < n { columns } else { n };
    let rows: usize = (n - 1) / cols + 1;
    proof {
        lemma_ceil_div(n as int, cols as int);
        assert(rows == sheet_rows(n as nat, cols as nat));
    }
    let sheet_w: u32 = if fw == 0 {
        assert(fw * cols == 0) by (nonlinear_arith) requires fw == 0;
        0
    } else {
        assert(cols <= fw * cols) by (nonlinear_arith) requires fw > 0, cols >= 0;
        let v = fw * (cols as u32);
        assert(v == fw * cols);
        v
    };
    let sheet_h: u32 = if fh == 0 {
        assert(fh * rows == 0) by (nonlinear_arith) requires fh == 0;
        0
    } else {
        assert(rows <= fh * rows) by (nonlinear_arith) requires fh > 0, rows >= 0;
        let v = fh * (rows as u32);
        assert(v == fh * rows);
        v
    };
    assert(cols == sheet_columns(n as nat, columns as nat));
    assert(sheet_w == fw * cols);
    assert(sheet_h == fh * rows);
    let ghost views_f = views(frames@);
    let ghost base = Raster::blank(fw as nat * cols as nat, fh as nat * rows as nat);
    let mut sheet = Frame::blank(sheet_w, sheet_h);
    let mut i: usize = 0;
    while i < n
        invariant
            n == frames@.len(),
            0 < cols <= n,
            forall|j: int| 0 <= j < n ==> (#[trigger] frames@[j]).wf(),
            fw == frames@[0].width,
            fh == frames@[0].height,
            sheet_w == fw * cols,
            sheet_h == fh * rows,
            rows == sheet_rows(n as nat, cols as nat),
            rows == (n - 1) / (cols as int) + 1,
            views_f == views(frames@),
            base == Raster::blank(fw as nat * cols as nat, fh as nat * rows as nat),
            i <= n,
            sheet.wf(),
            sheet.width == sheet_w,
            sheet.height == sheet_h,
            sheet@ == paste_frames(base, views_f, cols as nat, fw as nat, fh as nat, i as nat),
        decreases n - i,
    {
        let col: usize = i % cols;
        let row: usize = i / cols;
        proof {
            lemma_cell_bound(i as int, cols as int, rows as int, n as int);
        }
        let x: i64 = if fw == 0 {
            assert(col * fw == 0) by (nonlinear_arith) requires fw == 0;
            0
        } else {
            assert(col * fw <= cols * fw) by (nonlinear_arith) requires col < cols, fw >= 0;
            assert(cols * fw == fw * cols) by (nonlinear_arith);
            assert(cols <= fw * cols) by (nonlinear_arith) requires fw > 0, cols >= 0;
            assert((col as u32) == col);
            ((col as u32) * fw) as i64
        };
        let y: i64 = if fh == 0 {
            assert(row * fh == 0) by (nonlinear_arith) requires fh == 0;
            0
        } else {
            assert(row * fh <= rows * fh) by (nonlinear_arith) requires row < rows, fh >= 0;
            assert(rows * fh == fh * rows) by (nonlinear_arith);
            assert(rows <= fh * rows) by (nonlinear_arith) requires fh > 0, rows >= 0;
            assert((row as u32) == row);
            ((row as u32) * fh) as i64
        };
        assert(x == cell_x(i as int, cols as int, fw as int));
        assert(y == cell_y(i as int, cols as int, fh as int));
        assert(views_f[i as int] == frames@[i as int]@);
        replace_frame(&mut sheet, &frames[i], x, y);
        i = i + 1;
    }
    Ok(sheet)
}

/// `(n - 1) / c + 1` is the rounded-up quotient of `n` by `c`.
pub proof fn lemma_ceil_div(n: int, c: int)
    requires
        n > 0,
        c > 0,
    ensures
        (n - 1) / c + 1 == (n + c - 1) / c,
{
    vstd::arithmetic::div_mod::lemma_fundamental_div_mod(n - 1, c);
    vstd::arithmetic::div_mod::lemma_mod_pos_bound(n - 1, c);
    assert((n + c - 1) == ((n - 1) / c + 1) * c + (n - 1) % c) by (nonlinear_arith)
        requires
            n - 1 == c * ((n - 1) / c) + (n - 1) % c,
    ;
    vstd::arithmetic::div_mod::lemma_fundamental_div_mod_converse(n + c - 1, c, (n - 1) / c + 1, (n - 1) % c);
}

/// The cell of frame `i < n` lies in the grid: its column is below `cols`
/// and its row below the rows that `n` frames fill.
pub proof fn lemma_cell_bound(i: int, cols: int, rows: int, n: int)
    requires
        0 <= i < n,
        cols > 0,
        rows == (n - 1) / cols + 1,
    ensures
        0 <= i % cols < cols,
        0 <= i / cols < rows,
        (i / cols) * cols + i % cols == i,
{
    vstd::arithmetic::div_mod::lemma_fundamental_div_mod(i, cols);
    vstd::arithmetic::div_mod::lemma_mod_pos_bound(i, cols);
    vstd::arithmetic::div_mod::lemma_div_pos_is_pos(i, cols);
    vstd::arithmetic::div_mod::lemma_div_is_ordered(i, n - 1, cols);
    assert((i / cols) * cols == cols * (i / cols)) by (nonlinear_arith);
}

/// Every frame is a well-formed `fw` x `fh` image.
pub open spec fn uniform(frames: Seq<Raster>, fw: nat, fh: nat) -> bool {
    forall|i: int|
        0 <= i < frames.len() ==> (#[trigger] frames[i]).wf() && frames[i].width == fw
            && frames[i].height == fh
}

/// The pixel at `(px, py)` of a grid of `fw` x `fh` cells, `cols` wide, in
/// which the first `k` cells hold `frames` and the rest are transparent.
pub open spec fn grid_pixel(frames: Seq<Raster>, cols: nat, fw: nat, fh: nat, k: int, px: int, py: int) -> Rgba {
    let j = (py / (fh as int)) * cols + px / (fw as int);
    if j < k {
        frames[j].at(px % (fw as int), py % (fh as int))
    } else {
        transparent()
    }
}

/// A coordinate `p` lies in cell `q` of cells `d` long exactly when
/// `p / d == q`, and then its offset in the cell is `p % d`.
pub proof fn lemma_in_cell(p: int, d: int, q: int)
    requires
        d > 0,
        p >= 0,
    ensures
        (q * d <= p < q * d + d) <==> p / d == q,
        p / d == q ==> p % d == p - q * d,
        0 <= p % d < d,
{
    lemma_fundamental_div_mod(p, d);
    lemma_mod_pos_bound(p, d);
    if q * d <= p < q * d + d {
        lemma_fundamental_div_mod_converse(p, d, q, p - q * d);
    }
    if p / d == q {
        assert(q * d == d * q) by (nonlinear_arith);
    }
}

/// After drawing the first `k` frames into a transparent grid, every pixel
/// is the grid pixel of the first `k` frames.
proof fn lemma_paste_grid(base: Raster, frames: Seq<Raster>, cols: nat, fw: nat, fh: nat, k: nat)
    requires
        fw > 0,
        fh > 0,
        cols > 0,
        base.wf(),
        base.width == fw * cols,
        forall|x: int, y: int| base.in_bounds(x, y) ==> #[trigger] base.at(x, y) == transparent(),
        uniform(frames, fw, fh),
        k <= frames.len(),
    ensures
        ({
            let s = paste_frames(base, frames, cols, fw, fh, k);
            &&& s.wf()
            &&& s.width == base.width
            &&& s.height == base.height
            &&& forall|x: int, y: int| s.in_bounds(x, y) ==> #[trigger] s.at(x, y) == grid_pixel(frames, cols, fw, fh, k as int, x, y)
        }),
    decreases k,
{
    let s = paste_frames(base, frames, cols, fw, fh, k);
    if k == 0 {
        assert forall|x: int, y: int| s.in_bounds(x, y) implies #[trigger] s.at(x, y) == grid_pixel(frames, cols, fw, fh, k as int, x, y) by {
            lemma_in_cell(x, fw as int, 0);
            lemma_in_cell(y, fh as int, 0);
            assert(0 <= (y / (fh as int)) * cols) by (nonlinear_arith)
                requires y / (fh as int) >= 0, cols >= 0;
        }
    } else {
        let i = (k - 1) as nat;
        lemma_paste_grid(base, frames, cols, fw, fh, i);
        let prev = paste_frames(base, frames, cols, fw, fh, i);
        let top = frames[i as int];
        let bx = cell_x(i as int, cols as int, fw as int);
        let by = cell_y(i as int, cols as int, fh as int);
        let f = |a: int, b: int|
            if bx <= a < bx + top.width && by <= b < by + top.height {
                top.at(a - bx, b - by)
            } else {
                prev.at(a, b)
            };
        assert(s == Raster::from_fn(prev.width, prev.height, f));
        lemma_in_cell(i as int, cols as int, i as int / cols as int);
        let ic = i as int % cols as int;
        let ir = i as int / cols as int;
        assert(ir * cols + ic == i) by {
            lemma_fundamental_div_mod(i as int, cols as int);
            assert(ir * cols == cols * ir) by (nonlinear_arith);
        }
        assert forall|x: int, y: int| s.in_bounds(x, y) implies #[trigger] s.at(x, y) == grid_pixel(frames, cols, fw, fh, k as int, x, y) by {
            lemma_from_fn_at(prev.width, prev.height, f, x, y);
            lemma_in_cell(x, fw as int, ic);
            lemma_in_cell(y, fh as int, ir);
            let c = x / (fw as int);
            let r = y / (fh as int);
            assert(c < cols) by {
                lemma_in_cell(x, fw as int, c);
                if c >= cols {
                    assert(c * fw >= cols * fw) by (nonlinear_arith)
                        requires c >= cols, fw >= 0;
                    assert(cols * fw == fw * cols) by (nonlinear_arith);
                }
            }
            assert(r >= 0) by {
                lemma_in_cell(y, fh as int, r);
                if r < 0 {
                    assert(r * fh < 0) by (nonlinear_arith) requires r < 0, fh > 0;
                }
            }
            assert(c >= 0) by {
                lemma_in_cell(x, fw as int, c);
                if c < 0 {
                    assert(c * fw < 0) by (nonlinear_arith) requires c < 0, fw > 0;
                }
            }
            let j = r * cols + c;
            if bx <= x < bx + top.width && by <= y < by + top.height {
                assert(c == ic);
                assert(r == ir);
                assert(j == i);
            } else {
                if j == i {
                    lemma_fundamental_div_mod_converse(i as int, cols as int, r, c);
                    assert(c == ic);
                    assert(r == ir);
                    assert(false);
                }
                assert(j != i);
            }
        }
    }
}

/// Where all frames share one size, the assembled sheet holds frame `j` in
/// cell `(j % cols, j / cols)` and is transparent in the cells past the last
/// frame.
pub proof fn lemma_assembled_layout(frames: Seq<Raster>, columns: nat)
    requires
        frames.len() > 0,
        columns > 0,
        frames[0].width > 0,
        frames[0].height > 0,
        uniform(frames, frames[0].width, frames[0].height),
    ensures
        ({
            let sheet = assembled_sheet(frames, columns);
            let cols = sheet_columns(frames.len(), columns);
            let (fw, fh) = (frames[0].width, frames[0].height);
            &&& sheet.wf()
            &&& sheet.width == fw * cols
            &&& sheet.height == fh * sheet_rows(frames.len(), cols)
            &&& forall|x: int, y: int| sheet.in_bounds(x, y) ==> #[trigger] sheet.at(x, y)
                == grid_pixel(frames, cols, fw, fh, frames.len() as int, x, y)
        }),
{
    let n = frames.len();
    let cols = sheet_columns(n, columns);
    let (fw, fh) = (frames[0].width, frames[0].height);
    let rows = sheet_rows(n, cols);
    let base = Raster::blank(fw * cols, fh * rows);
    assert forall|x: int, y: int| base.in_bounds(x, y) implies #[trigger] base.at(x, y) == transparent() by {
        lemma_from_fn_at(fw * cols, fh * rows, |x: int, y: int| transparent(), x, y);
    }
    lemma_paste_grid(base, frames, cols, fw, fh, n);
}

/// Cutting an assembled sheet back into frames gives the frames back: where
/// all frames share one size, the sheet is as many frames wide as it has
/// columns, every cell lies within it, and cell `i` holds frame `i`.
pub proof fn lemma_split_assembled(frames: Seq<Raster>, columns: nat)
    requires
        frames.len() > 0,
        columns > 0,
        frames[0].width > 0,
        uniform(frames, frames[0].width, frames[0].height),
    ensures
        ({
            let sheet = assembled_sheet(frames, columns);
            let (fw, fh) = (frames[0].width, frames[0].height);
            let cols = sheet.width / fw;
            &&& cols == sheet_columns(frames.len(), columns)
            &&& forall|i: int| 0 <= i < frames.len() ==> #[trigger] cell_fits(sheet.width as int, sheet.height as int, cols as int, fw as int, fh as int, i)
            &&& forall|i: int| 0 <= i < frames.len() ==> #[trigger] cell_of(sheet, cols as int, fw, fh, i) == frames[i]
        }),
{
    let n = frames.len();
    let cols = sheet_columns(n, columns);
    let (fw, fh) = (frames[0].width, frames[0].height);
    let rows = sheet_rows(n, cols);
    let sheet = assembled_sheet(frames, columns);
    let base = Raster::blank(fw * cols, fh * rows);
    assert(sheet == paste_frames(base, frames, cols, fw, fh, n));
    lemma_ceil_div(n as int, cols as int);
    if fh > 0 {
        lemma_assembled_layout(frames, columns);
    } else {
        lemma_paste_dims(base, frames, cols, fw, fh, n);
    }
    assert(sheet.width == fw * cols);
    assert(sheet.height == fh * rows);
    assert(sheet.width / fw == cols) by {
        assert(fw * cols == cols * fw) by (nonlinear_arith);
        lemma_fundamental_div_mod_converse(sheet.width as int, fw as int, cols as int, 0);
    }
    assert forall|i: int| 0 <= i < n implies cell_fits(sheet.width as int, sheet.height as int, cols as int, fw as int, fh as int, i)
        && #[trigger] cell_of(sheet, cols as int, fw, fh, i) == frames[i] by {
        lemma_cell_bound(i, cols as int, rows as int, n as int);
        let ic = i % (cols as int);
        let ir = i / (cols as int);
        let bx = ic * fw;
        let by = ir * fh;
        assert(bx + fw <= fw * cols) by (nonlinear_arith)
            requires 0 <= ic < cols, fw >= 0, bx == ic * fw;
        assert(by + fh <= fh * rows) by (nonlinear_arith)
            requires 0 <= ir < rows, fh >= 0, by == ir * fh;
        assert(0 <= bx) by (nonlinear_arith) requires 0 <= ic, fw >= 0, bx == ic * fw;
        assert(0 <= by) by (nonlinear_arith) requires 0 <= ir, fh >= 0, by == ir * fh;
        let cell = cell_of(sheet, cols as int, fw, fh, i);
        let fr = frames[i];
        assert(cell.width == fw && cell.height == fh);
        assert forall|x: int, y: int| cell.in_bounds(x, y) implies #[trigger] cell.at(x, y) == fr.at(x, y) by {
            lemma_from_fn_at(fw, fh, |a: int, b: int| sheet.at(bx + a, by + b), x, y);
            assert(cell.at(x, y) == sheet.at(bx + x, by + y));
            assert(sheet.in_bounds(bx + x, by + y));
            lemma_in_cell(bx + x, fw as int, ic);
            lemma_in_cell(by + y, fh as int, ir);
            assert(ir * cols + ic == i) by {
                assert(ir * cols == cols * ir) by (nonlinear_arith);
                lemma_fundamental_div_mod(i, cols as int);
            }
        }
        assert(cell.wf()) by {
            if fw > 0 && fh > 0 {
                lemma_from_fn_at(fw, fh, |a: int, b: int| sheet.at(bx + a, by + b), 0, 0);
            }
        }
        lemma_raster_ext(cell, fr);
    }
    assert forall|i: int| 0 <= i < n implies #[trigger] cell_fits(sheet.width as int, sheet.height as int, cols as int, fw as int, fh as int, i) by {
        assert(cell_of(sheet, cols as int, fw, fh, i) == frames[i]);
    }
}


/// A sheet is as many columns wide as it was asked for, but never wider than
/// the number of frames.
pub proof fn lemma_sheet_columns(n: nat, columns: nat)
    ensures
        sheet_columns(n, columns) == (if columns < n { columns } else { n }),
{
}

/// Where all frames share one size `fw` x `fh`, frame `i` of the assembled
/// sheet sits with its corner at `((i % c) * fw, (i / c) * fh)`, where `c` is
/// the smaller of the asked-for columns and the number of frames, and the
/// sheet is `c` frames wide and as many rows high as the frames fill.
pub proof fn lemma_assembled_cells(frames: Seq<Raster>, columns: nat)
    requires
        frames.len() > 0,
        columns > 0,
        frames[0].width > 0,
        uniform(frames, frames[0].width, frames[0].height),
    ensures
        ({
            let sheet = assembled_sheet(frames, columns);
            let n = frames.len() as int;
            let c = if columns < n { columns as int } else { n };
            let fw = frames[0].width as int;
            let fh = frames[0].height as int;
            &&& sheet.width == fw * c
            &&& sheet.height == fh * ((n + c - 1) / c)
            &&& forall|i: int, x: int, y: int|
                0 <= i < n && 0 <= x < fw && 0 <= y < fh ==> #[trigger] sheet.at((i % c) * fw + x, (i / c) * fh + y)
                    == #[trigger] frames[i].at(x, y)
        }),
{
    let sheet = assembled_sheet(frames, columns);
    let n = frames.len() as int;
    let c = if columns < n { columns as int } else { n };
    let (fw, fh) = (frames[0].width, frames[0].height);
    lemma_split_assembled(frames, columns);
    let cols = sheet.width / fw;
    assert(cols as int == c);
    let rows = sheet_rows(frames.len(), c as nat);
    lemma_paste_dims(Raster::blank(fw * c as nat, fh * rows), frames, c as nat, fw, fh, frames.len());
    assert forall|i: int, x: int, y: int|
        0 <= i < n && 0 <= x < fw && 0 <= y < fh implies #[trigger] sheet.at((i % c) * fw + x, (i / c) * fh + y)
            == #[trigger] frames[i].at(x, y) by {
        assert(cell_of(sheet, c, fw, fh, i) == frames[i]);
        let bx = cell_x(i, c, fw as int);
        let by = cell_y(i, c, fh as int);
        assert(cell_fits(sheet.width as int, sheet.height as int, c, fw as int, fh as int, i));
        lemma_from_fn_at(fw, fh, |a: int, b: int| sheet.at(bx + a, by + b), x, y);
    }
}

/// Drawing frames never changes the size of the sheet or its well-formedness.
proof fn lemma_paste_dims(base: Raster, frames: Seq<Raster>, cols: nat, fw: nat, fh: nat, k: nat)
    requires
        base.wf(),
    ensures
        paste_frames(base, frames, cols, fw, fh, k).wf(),
        paste_frames(base, frames, cols, fw, fh, k).width == base.width,
        paste_frames(base, frames, cols, fw, fh, k).height == base.height,
    decreases k,
{
    if k > 0 {
        lemma_paste_dims(base, frames, cols, fw, fh, (k - 1) as nat);
    }
}

} // verus!
