//! The export driver: frames packed into a sprite sheet, and the names of
//! numbered frame images.
use vstd::prelude::*;
use vstd::arithmetic::div_mod::{
    lemma_fundamental_div_mod, lemma_fundamental_div_mod_converse, lemma_mod_bound,
};
use crate::geometry::{ceil_sqrt, ceil_sqrt_spec, is_ceil_sqrt, lemma_ceil_sqrt_unique};
use crate::model::Project;
use crate::pixels::{buffer_pixels, buffer_size, fits_in_memory, grid, PixelBuffer, Rgba8};
use crate::raster::{frame_pixels, rasterize_frame};

verus! {

/// Columns of the sprite sheet for `total` frames: the square root, rounded up.
pub open spec fn sheet_columns(total: int) -> int {
    ceil_sqrt_spec(total)
}

/// Rows of the sprite sheet for `total` frames: `total / columns`, rounded up.
pub open spec fn sheet_rows(total: int) -> int {
    let c = sheet_columns(total);
    (total + c - 1) / c
}

/// The sheet: frame `i` fills the cell at column `i % columns`, row
/// `i / columns`; cells past the last frame stay transparent black.
pub open spec fn sheet_pixels(p: Project) -> Map<(int, int), Rgba8> {
    let cw = p.canvas_width as int;
    let ch = p.canvas_height as int;
    let c = sheet_columns(p.total_frames as int);
    let r = sheet_rows(p.total_frames as int);
    Map::new(
        |k: (int, int)| grid(c * cw, r * ch).contains(k),
        |k: (int, int)|
            {
                let i = (k.1 / ch) * c + k.0 / cw;
                if i < p.total_frames {
                    frame_pixels(p, i)[(k.0 % cw, k.1 % ch)]
                } else {
                    (0u8, 0u8, 0u8, 0u8)
                }
            },
    )
}

/// The sheet's grid for `total_frames` frames, as `(columns, rows)`.
pub fn sprite_grid(total_frames: u32) -> (r: (u32, u32))
    requires
        total_frames >= 1,
    ensures
        r.0 as int == sheet_columns(total_frames as int),
        r.1 as int == sheet_rows(total_frames as int),
        is_ceil_sqrt(total_frames as int, r.0 as int),
        1 <= r.0,
        1 <= r.1,
        total_frames <= r.0 as int * r.1 as int,
{
    let columns = ceil_sqrt(total_frames as u128);
    proof {
        lemma_ceil_sqrt_unique(total_frames as int, columns as int);
        assert(1 <= columns <= 0x1_0000) by (nonlinear_arith)
            requires
                total_frames <= columns * columns,
                columns == 0 || (columns - 1) * (columns - 1) < total_frames,
                1 <= total_frames <= 0xffff_ffff,
        ;
    }
    let columns = columns as u32;
    proof {
        let n = total_frames as int;
        let c = columns as int;
        lemma_fundamental_div_mod(n + c - 1, c);
        lemma_mod_bound(n + c - 1, c);
        let q = (n + c - 1) / c;
        assert(n <= c * q && 1 <= q <= n) by (nonlinear_arith)
            requires c * q + (n + c - 1) % c == n + c - 1, 0 <= (n + c - 1) % c < c, 1 <= n, 1 <= c;
    }
    let rows = ((total_frames as u64 + columns as u64 - 1) / columns as u64) as u32;
    (columns, rows)
}

/// The cell `(column, row)` of frame `frame` in a sheet of `columns` columns.
pub fn sprite_cell(frame: u32, columns: u32) -> (r: (u32, u32))
    requires
        columns >= 1,
    ensures
        r == (frame % columns, frame / columns),
{
    (frame % columns, frame / columns)
}

/// The sheet with frames before `i` copied, and frame `i` copied in the rows
/// above `y` and row `y` left of `x`.
spec fn sheet_progress(
    p: Project,
    c: int,
    sw: int,
    sh: int,
    i: int,
    y: int,
    x: int,
) -> Map<(int, int), Rgba8> {
    let cw = p.canvas_width as int;
    let ch = p.canvas_height as int;
    Map::new(
        |k: (int, int)| grid(sw, sh).contains(k),
        |k: (int, int)|
            {
                let j = (k.1 / ch) * c + k.0 / cw;
                let lx = k.0 % cw;
                let ly = k.1 % ch;
                if j < i || (j == i && (ly < y || (ly == y && lx < x))) {
                    frame_pixels(p, j)[(lx, ly)]
                } else {
                    (0u8, 0u8, 0u8, 0u8)
                }
            },
    )
}

/// Where a sheet position lies: its cell column is within the grid, and
/// when its cell index is `i` its cell is that of frame `i`.
proof fn lemma_cell_of(k0: int, k1: int, cw: int, ch: int, c: int, rows: int, i: int)
    requires
        0 <= k0 < c * cw,
        0 <= k1 < rows * ch,
        0 <= cw,
        0 <= ch,
        0 <= rows,
        0 < c,
        0 <= i,
    ensures
        0 < cw,
        0 < ch,
        0 <= (k1 / ch) * c + k0 / cw,
        k0 / cw < c,
        0 <= k0 / cw,
        0 <= k1 / ch,
        0 <= k0 % cw < cw,
        0 <= k1 % ch < ch,
        k0 == cw * (k0 / cw) + k0 % cw,
        k1 == ch * (k1 / ch) + k1 % ch,
        (k1 / ch) * c + k0 / cw == i ==> k0 / cw == i % c && k1 / ch == i / c,
{
    assert(0 < cw) by (nonlinear_arith)
        requires 0 <= k0 < c * cw, 0 < c, 0 <= cw;
    assert(0 < ch) by (nonlinear_arith)
        requires 0 <= k1 < rows * ch, 0 <= rows, 0 <= ch;
    lemma_fundamental_div_mod(k0, cw);
    lemma_fundamental_div_mod(k1, ch);
    lemma_mod_bound(k0, cw);
    lemma_mod_bound(k1, ch);
    let q0 = k0 / cw;
    let q1 = k1 / ch;
    assert(0 <= q0 < c) by (nonlinear_arith)
        requires k0 == cw * q0 + k0 % cw, 0 <= k0 % cw < cw, 0 <= k0 < c * cw, 0 < cw;
    assert(0 <= q1) by (nonlinear_arith)
        requires k1 == ch * q1 + k1 % ch, 0 <= k1 % ch < ch, 0 <= k1, 0 < ch;
    assert(0 <= q1 * c + q0) by (nonlinear_arith)
        requires 0 <= q1, 0 <= q0, 0 < c;
    if q1 * c + q0 == i {
        assert(i == c * q1 + q0) by (nonlinear_arith)
            requires q1 * c + q0 == i;
        lemma_fundamental_div_mod_converse(i, c, q1, q0);
    }
}

/// Renders every frame of `project` and packs them into one sprite sheet of
/// `columns * canvas_width` by `rows * canvas_height` pixels.
#[verifier::rlimit(60)]
pub fn build_sprite_sheet(project: &Project) -> (r: PixelBuffer)
    requires
        project.wf(),
        sheet_columns(project.total_frames as int) * project.canvas_width <= u32::MAX,
        sheet_rows(project.total_frames as int) * project.canvas_height <= u32::MAX,
        fits_in_memory(
            sheet_columns(project.total_frames as int) * project.canvas_width,
            sheet_rows(project.total_frames as int) * project.canvas_height,
        ),
    ensures
        r.wf(),
        buffer_size(r) == (
            (sheet_columns(project.total_frames as int) * project.canvas_width) as nat,
            (sheet_rows(project.total_frames as int) * project.canvas_height) as nat,
        ),
        buffer_pixels(r) == sheet_pixels(*project),
{
    let total = project.total_frames;
    let cw = project.canvas_width;
    let ch = project.canvas_height;
    let (columns, rows) = sprite_grid(total);
    let sw = columns * cw;
    let sh = rows * ch;
    proof {
        assert(cw as int * ch as int <= sw as int * sh as int) by (nonlinear_arith)
            requires sw == columns * cw, sh == rows * ch, 1 <= columns, 1 <= rows, 0 <= cw, 0 <= ch;
        assert(4 * cw as int * ch as int <= 4 * sw as int * sh as int) by (nonlinear_arith)
            requires cw as int * ch as int <= sw as int * sh as int;
    }
    let mut sheet = PixelBuffer::filled(sw, sh, (0, 0, 0, 0));
    let ghost c = columns as int;
    let ghost p = *project;
    proof {
        let a = sheet_progress(p, c, sw as int, sh as int, 0, 0, 0);
        assert forall|k2: (int, int)| #[trigger] a.dom().contains(k2) implies a[k2] == buffer_pixels(
            sheet,
        )[k2] by {
            lemma_cell_of(k2.0, k2.1, cw as int, ch as int, c, rows as int, 0);
            assert(grid(sw as int, sh as int).contains(k2));
        }
        assert(buffer_pixels(sheet).dom() =~= a.dom());
        assert(buffer_pixels(sheet) =~= a);
    }
    let mut frame: u32 = 0;
    while frame < total
        invariant
            frame <= total,
            total == project.total_frames,
            p == *project,
            project.wf(),
            cw == project.canvas_width,
            ch == project.canvas_height,
            c == columns as int,
            1 <= columns,
            1 <= rows,
            total <= columns as int * rows as int,
            sw == columns * cw,
            sh == rows * ch,
            fits_in_memory(cw as int, ch as int),
            sheet.wf(),
            buffer_size(sheet) == (sw as nat, sh as nat),
            buffer_pixels(sheet) == sheet_progress(p, c, sw as int, sh as int, frame as int, 0, 0),
        decreases total - frame,
    {
        let image = rasterize_frame(project, frame);
        let (column, row) = sprite_cell(frame, columns);
        proof {
            lemma_fundamental_div_mod(frame as int, c);
            lemma_mod_bound(frame as int, c);
            assert(row < rows) by (nonlinear_arith)
                requires
                    frame == c * row + column,
                    0 <= column,
                    frame < total,
                    total <= c * rows,
                    1 <= c,
            ;
            assert(column as int * cw as int + cw as int <= sw as int) by (nonlinear_arith)
                requires column < c, sw == c * cw, 0 <= cw;
            assert(row as int * ch as int + ch as int <= sh as int) by (nonlinear_arith)
                requires row < rows, sh == rows * ch, 0 <= ch;
        }
        let offset_x = column * cw;
        let offset_y = row * ch;
        let mut y: u32 = 0;
        while y < ch
            invariant
                y <= ch,
                rows >= 1,
                frame < total,
                total == project.total_frames,
                p == *project,
                cw == project.canvas_width,
                ch == project.canvas_height,
                c == columns as int,
                1 <= columns,
                column == frame % columns,
                row == frame / columns,
                offset_x == column * cw,
                offset_y == row * ch,
                offset_x + cw <= sw,
                offset_y + ch <= sh,
                sw == columns * cw,
                sh == rows * ch,
                image.wf(),
                buffer_size(image) == (cw as nat, ch as nat),
                buffer_pixels(image) == frame_pixels(p, frame as int),
                sheet.wf(),
                buffer_size(sheet) == (sw as nat, sh as nat),
                buffer_pixels(sheet) == sheet_progress(p, c, sw as int, sh as int, frame as int, y as int, 0),
            decreases ch - y,
        {
            let mut x: u32 = 0;
            while x < cw
                invariant
                    x <= cw,
                    y < ch,
                    rows >= 1,
                    frame < total,
                    p == *project,
                    cw == project.canvas_width,
                    ch == project.canvas_height,
                    c == columns as int,
                    1 <= columns,
                    column == frame % columns,
                    row == frame / columns,
                    offset_x == column * cw,
                    offset_y == row * ch,
                    offset_x + cw <= sw,
                    offset_y + ch <= sh,
                    sw == columns * cw,
                    sh == rows * ch,
                    image.wf(),
                    buffer_size(image) == (cw as nat, ch as nat),
                    buffer_pixels(image) == frame_pixels(p, frame as int),
                    sheet.wf(),
                    buffer_size(sheet) == (sw as nat, sh as nat),
                    buffer_pixels(sheet) == sheet_progress(
                        p,
                        c,
                        sw as int,
                        sh as int,
                        frame as int,
                        y as int,
                        x as int,
                    ),
                decreases cw - x,
            {
                let ghost before = buffer_pixels(sheet);
                let pixel = image.get(x, y);
                let gx = offset_x + x;
                let gy = offset_y + y;
                sheet.put(gx, gy, pixel);
                proof {
                    let k = (gx as int, gy as int);
                    lemma_fundamental_div_mod(frame as int, c);
                    assert(gx as int == cw * column + x) by (nonlinear_arith)
                        requires gx == offset_x + x, offset_x == column * cw;
                    assert(gy as int == ch * row + y) by (nonlinear_arith)
                        requires gy == offset_y + y, offset_y == row * ch;
                    assert(row * c + column == frame) by (nonlinear_arith)
                        requires frame == c * row + column;
                    lemma_fundamental_div_mod_converse(gx as int, cw as int, column as int, x as int);
                    lemma_fundamental_div_mod_converse(gy as int, ch as int, row as int, y as int);
                    assert(grid(sw as int, sh as int).contains(k));
                    let want = sheet_progress(p, c, sw as int, sh as int, frame as int, y as int, x + 1);
                    assert forall|k2: (int, int)| #[trigger] want.dom().contains(k2) implies want[k2]
                        == buffer_pixels(sheet)[k2] by {
                        lemma_cell_of(k2.0, k2.1, cw as int, ch as int, c, rows as int, frame as int);
                    }
                    assert(buffer_pixels(sheet) =~= want);
                }
                x += 1;
            }
            proof {
                let a = sheet_progress(p, c, sw as int, sh as int, frame as int, y as int, cw as int);
                let b = sheet_progress(p, c, sw as int, sh as int, frame as int, y + 1, 0);
                assert forall|k2: (int, int)| #[trigger] a.dom().contains(k2) implies a[k2] == b[k2] by {
                    lemma_cell_of(k2.0, k2.1, cw as int, ch as int, c, rows as int, frame as int);
                }
                assert(a =~= b);
            }
            y += 1;
        }
        proof {
            let a = sheet_progress(p, c, sw as int, sh as int, frame as int, ch as int, 0);
            let b = sheet_progress(p, c, sw as int, sh as int, frame + 1, 0, 0);
            assert forall|k2: (int, int)| #[trigger] a.dom().contains(k2) implies a[k2] == b[k2] by {
                lemma_cell_of(k2.0, k2.1, cw as int, ch as int, c, rows as int, frame as int);
            }
            assert(a =~= b);
        }
        frame += 1;
    }
    proof {
        let a = sheet_progress(p, c, sw as int, sh as int, total as int, 0, 0);
        let b = sheet_pixels(p);
        assert forall|k2: (int, int)| #[trigger] a.dom().contains(k2) implies a[k2] == b[k2] by {
            lemma_cell_of(k2.0, k2.1, cw as int, ch as int, c, rows as int, total as int);
        }
        assert(a =~= b);
    }
    sheet
}

} // verus!
