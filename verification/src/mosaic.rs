//! Mosaic construction: the target picture is cut into tile-sized cells and
//! each cell is replaced by the first tile at the least L1 distance from it.

use vstd::prelude::*;
use crate::rgb_image::{
    RgbImage, Picture, nearest_resize, resize_nearest, lemma_offset_encode, lemma_offset_decode,
    lemma_pixel_offset_bounds, pixel_offset,
};
use vstd::arithmetic::div_mod::{lemma_fundamental_div_mod, lemma_fundamental_div_mod_converse};
use crate::distinct::{build_distinct_mosaic, distinct_choice, lemma_distinct_choices_kernel};
use crate::l1::{
    CpuFeatures, get_optimal_l1, selected_kernel, announces_kernel, L1Kernel, kernel_l1, kernel_accepts, l1,
    sad_exceeds_i32, lemma_sad_bound, lemma_block_kernel_matches_generic, l1_distance,
};

verus! {

/// Width and height of a picture or a tile, in pixels.
#[derive(Clone, Copy, Debug)]
pub struct Size {
    pub width: u32,
    pub height: u32,
}

/// What a mosaic run is asked to do.
pub struct Options {
    /// Location of the target image.
    pub image: String,
    /// Where the result is saved.
    pub output: String,
    /// Location of the tiles.
    pub tiles: String,
    /// Scaling factor of the image.
    pub scaling: u32,
    /// Size of the (square) tiles.
    pub tile_size: u32,
    /// Remove used tile: each tile fills at most one cell.
    pub remove_used: bool,
    pub verbose: bool,
    /// Use SIMD when available.
    pub simd: bool,
    /// Number of threads to use.
    pub num_thread: usize,
}

/// Why a mosaic could not be built.
#[derive(Clone, Copy, Debug, PartialEq, Eq, Structural)]
pub enum MosaicError {
    /// Fewer tiles (folder entries, or tiles handed over) than the mosaic
    /// has cells, with `remove_used`.
    NotEnoughTiles { required: i32, available: i32 },
    /// The mosaic has cells but there is no tile.
    NoTiles,
    /// The kernel cannot compute some tile-to-cell distance: a block kernel
    /// with a tile larger than a cell, or a distance beyond `i32::MAX`.
    KernelFault,
}

/// The views of a list of pictures.
pub open spec fn views(imgs: Seq<RgbImage>) -> Seq<Picture> {
    imgs.map_values(|t: RgbImage| t@)
}

/// Cell `(cx, cy)` of a grid of `tw` by `th` cells laid over `p`.
pub open spec fn cell(p: Picture, tw: int, th: int, cx: int, cy: int) -> Picture {
    p.crop(cx * tw, cy * th, tw, th)
}

/// Channel `c` of pixel `(i, j)` of cell `(cx, cy)` of `p`.
pub open spec fn cell_sample(p: Picture, tw: int, th: int, cx: int, cy: int, i: int, j: int, c: int) -> u8 {
    p.sample(cx * tw + i, cy * th + j, c)
}

/// Distance, with `kernel`, of each tile to `target_tile`.
pub open spec fn tile_errors(kernel: L1Kernel, tiles: Seq<Picture>, target_tile: Picture) -> Seq<int> {
    Seq::new(tiles.len(), |t: int| kernel_l1(kernel, tiles[t].bytes, target_tile.bytes))
}

/// `i` is the first position of a least element of `e`.
pub open spec fn is_first_min(e: Seq<int>, i: int) -> bool {
    &&& 0 <= i < e.len()
    &&& forall|j: int| 0 <= j < e.len() ==> e[i] <= #[trigger] e[j]
    &&& forall|j: int| 0 <= j < i ==> e[i] < #[trigger] e[j]
}

/// The first position of a least element of `e`.
pub open spec fn first_min(e: Seq<int>) -> int {
    choose|i: int| is_first_min(e, i)
}

/// There is one first least element.
pub proof fn lemma_first_min_unique(e: Seq<int>, i: int, j: int)
    requires
        is_first_min(e, i),
        is_first_min(e, j),
    ensures
        i == j,
{
    if i < j {
        assert(e[i] <= e[j]);
        assert(e[j] < e[i]);
    } else if j < i {
        assert(e[j] <= e[i]);
        assert(e[i] < e[j]);
    }
}

/// A position that is the first least element is the one `first_min` picks.
pub proof fn lemma_first_min_is(e: Seq<int>, i: int)
    requires
        is_first_min(e, i),
    ensures
        first_min(e) == i,
{
    lemma_first_min_unique(e, i, first_min(e));
}

/// The kernel runs without fault between every tile and `target_tile`.
pub open spec fn kernel_accepts_all(kernel: L1Kernel, tiles: Seq<Picture>, target_tile: Picture) -> bool {
    forall|t: int| 0 <= t < tiles.len() ==> #[trigger] kernel_accepts(kernel, tiles[t].bytes, target_tile.bytes)
}

/// Tiles that the kernels can take: well formed, and for a block kernel
/// with a pixel count that fits a `u32`.
pub open spec fn tiles_usable(kernel: L1Kernel, tiles: Seq<RgbImage>) -> bool {
    forall|t: int| 0 <= t < tiles.len() ==> {
        &&& (#[trigger] tiles[t]).wf()
        &&& kernel != L1Kernel::Generic ==> tiles[t].w() * tiles[t].h() <= u32::MAX
    }
}

/// The grid of `tw` by `th` cells over `p` has at least one whole cell.
pub open spec fn has_cells(p: Picture, tw: int, th: int) -> bool {
    p.width / tw > 0 && p.height / th > 0
}

/// The index of the first tile at the least distance from `target_tile`.
pub fn best_tile(tiles: &Vec<RgbImage>, target_tile: &RgbImage, kernel: L1Kernel) -> (best: usize)
    requires
        tiles.len() > 0,
        tiles_usable(kernel, tiles@),
        kernel_accepts_all(kernel, views(tiles@), target_tile@),
    ensures
        is_first_min(tile_errors(kernel, views(tiles@), target_tile@), best as int),
{
    let ghost e = tile_errors(kernel, views(tiles@), target_tile@);
    let mut best_tile: usize = 0;
    let mut min_error: i32 = i32::MAX;
    let mut i: usize = 0;
    while i < tiles.len()
        invariant
            e == tile_errors(kernel, views(tiles@), target_tile@),
            tiles.len() > 0,
            tiles_usable(kernel, tiles@),
            kernel_accepts_all(kernel, views(tiles@), target_tile@),
            i <= tiles.len(),
            best_tile < tiles.len(),
            best_tile <= i,
            i > 0 ==> best_tile < i && min_error == e[best_tile as int],
            i == 0 ==> best_tile == 0 && min_error == i32::MAX,
            forall|j: int| 0 <= j < i ==> min_error <= #[trigger] e[j],
            forall|j: int| 0 <= j < best_tile ==> min_error < #[trigger] e[j],
        decreases tiles.len() - i,
    {
        assert(kernel_accepts(kernel, views(tiles@)[i as int].bytes, target_tile@.bytes));
        assert(tiles@[i as int].wf());
        let error = l1(&tiles[i], target_tile, kernel);
        assert(error == e[i as int]);
        if error < min_error {
            min_error = error;
            best_tile = i;
        }
        i = i + 1;
    }
    best_tile
}

/// The kernel runs without fault between every tile and every whole cell
/// of `target`.
pub open spec fn mosaic_accepts(kernel: L1Kernel, target: Picture, tiles: Seq<Picture>, tw: int, th: int) -> bool {
    forall|cx: int, cy: int|
        0 <= cx < target.width / tw && 0 <= cy < target.height / th ==> #[trigger] kernel_accepts_all(
            kernel,
            tiles,
            cell(target, tw, th, cx, cy),
        )
}

/// The tile that goes into cell `(cx, cy)`: the first one at the least
/// distance from that cell of the target.
pub open spec fn chosen_tile(
    kernel: L1Kernel,
    target: Picture,
    tiles: Seq<Picture>,
    tw: int,
    th: int,
    cx: int,
    cy: int,
) -> int {
    first_min(tile_errors(kernel, tiles, cell(target, tw, th, cx, cy)))
}

/// `result` is `target` with tile `choice(cx, cy)` written into the top left
/// corner of each whole `tw` by `th` cell `(cx, cy)`; the rest, including
/// the strips right and below the last whole cells, is left as it was.
pub open spec fn paved(
    result: Picture,
    target: Picture,
    tiles: Seq<Picture>,
    choice: spec_fn(int, int) -> int,
    tw: int,
    th: int,
) -> bool {
    &&& result.width == target.width
    &&& result.height == target.height
    &&& forall|cx: int, cy: int, i: int, j: int, c: int|
        0 <= cx < target.width / tw && 0 <= cy < target.height / th && 0 <= i < tw && 0 <= j < th
            && 0 <= c < 3 ==> #[trigger] cell_sample(result, tw, th, cx, cy, i, j, c) == if i
            < tiles[choice(cx, cy)].width && j < tiles[choice(cx, cy)].height {
            tiles[choice(cx, cy)].sample(i, j, c)
        } else {
            cell_sample(target, tw, th, cx, cy, i, j, c)
        }
    &&& forall|x: int, y: int, c: int|
        0 <= x < target.width && 0 <= y < target.height && 0 <= c < 3 && (x >= (target.width / tw)
            * tw || y >= (target.height / th) * th) ==> #[trigger] result.sample(x, y, c)
            == target.sample(x, y, c)
}

/// A whole cell lies inside the picture.
pub proof fn lemma_cell_inside(len: int, t: int, k: int, i: int)
    requires
        0 < t,
        0 <= len,
        0 <= k < len / t,
        0 <= i < t,
    ensures
        0 <= k * t + i < (len / t) * t,
        k * t + t <= (len / t) * t,
        (len / t) * t <= len,
{
    assert(k * t + t <= (len / t) * t) by (nonlinear_arith)
        requires
            0 < t,
            k + 1 <= len / t,
    ;
    assert((len / t) * t <= len) by (nonlinear_arith)
        requires
            0 < t,
            0 <= len,
    ;
    assert(0 <= k * t) by (nonlinear_arith)
        requires
            0 < t,
            0 <= k,
    ;
}

/// Pixels of different cells of one column (or row) are apart.
pub proof fn lemma_cell_apart(t: int, k: int, i: int, k2: int)
    requires
        0 <= i < t,
        0 <= k,
        0 <= k2,
        k != k2,
    ensures
        !(k2 * t <= k * t + i < k2 * t + t),
{
    if k < k2 {
        assert(k * t + t <= k2 * t) by (nonlinear_arith)
            requires
                k < k2,
                0 <= i < t,
        ;
    } else {
        assert(k2 * t + t <= k * t) by (nonlinear_arith)
            requires
                k2 < k,
                0 <= i < t,
        ;
    }
}

/// Writing a tile no larger than a cell into cell `(cx, cy)` leaves every
/// other cell as it was, and with it the tile chosen for that cell: cells
/// can be chosen and written in any order, or side by side.
pub proof fn lemma_overlay_keeps_other_cells(
    kernel: L1Kernel,
    target: Picture,
    tile: Picture,
    tiles: Seq<Picture>,
    tw: int,
    th: int,
    cx: int,
    cy: int,
    cx2: int,
    cy2: int,
)
    requires
        target.width >= 0,
        target.height >= 0,
        target.bytes.len() == 3 * target.width * target.height,
        0 < tw,
        0 < th,
        0 <= tile.width <= tw,
        0 <= tile.height <= th,
        0 <= cx < target.width / tw,
        0 <= cy < target.height / th,
        0 <= cx2 < target.width / tw,
        0 <= cy2 < target.height / th,
        cx != cx2 || cy != cy2,
    ensures
        cell(target.overlay(tile, cx * tw, cy * th), tw, th, cx2, cy2) == cell(target, tw, th, cx2, cy2),
        chosen_tile(kernel, target.overlay(tile, cx * tw, cy * th), tiles, tw, th, cx2, cy2)
            == chosen_tile(kernel, target, tiles, tw, th, cx2, cy2),
{
    let ov = target.overlay(tile, cx * tw, cy * th);
    let a = cell(ov, tw, th, cx2, cy2);
    let b = cell(target, tw, th, cx2, cy2);
    assert forall|k: int| 0 <= k < a.bytes.len() implies a.bytes[k] == b.bytes[k] by {
        lemma_offset_encode(tw, th, k);
        let i = (k / 3) % tw;
        let j = (k / 3) / tw;
        let c = k % 3;
        let xx = cx2 * tw + i;
        let yy = cy2 * th + j;
        lemma_cell_inside(target.width, tw, cx2, i);
        lemma_cell_inside(target.height, th, cy2, j);
        lemma_pixel_offset_bounds(target.width, target.height, xx, yy);
        lemma_offset_decode(target.width, xx, yy, c);
        if cx2 != cx {
            lemma_cell_apart(tw, cx2, i, cx);
        } else {
            lemma_cell_apart(th, cy2, j, cy);
        }
    }
    assert(a.bytes =~= b.bytes);
}

/// For column `w` of the grid, the index of the tile chosen for each cell,
/// top to bottom. It only reads the target.
pub fn column_choices(
    target: &RgbImage,
    tiles: &Vec<RgbImage>,
    tile_size: &Size,
    w: u32,
    kernel: L1Kernel,
) -> (col: Vec<usize>)
    requires
        tile_size.width > 0,
        tile_size.height > 0,
        w < target.w() / tile_size.width,
        target.h() / tile_size.height > 0 ==> tiles.len() > 0 && tiles_usable(kernel, tiles@),
        mosaic_accepts(
            kernel,
            target@,
            views(tiles@),
            tile_size.width as int,
            tile_size.height as int,
        ),
    ensures
        col.len() == target.h() / tile_size.height,
        forall|cy: int| 0 <= cy < col.len() ==> #[trigger] col@[cy] < tiles.len(),
        forall|cy: int|
            0 <= cy < col.len() ==> #[trigger] col@[cy] == chosen_tile(
                kernel,
                target@,
                views(tiles@),
                tile_size.width as int,
                tile_size.height as int,
                w as int,
                cy,
            ),
{
    proof {
        use_type_invariant(target);
    }
    let tw = tile_size.width;
    let th = tile_size.height;
    let rows: u32 = target.height() / th;
    let mut col: Vec<usize> = Vec::new();
    let mut h: u32 = 0;
    proof {
        lemma_cell_inside(target.w() as int, tw as int, w as int, 0);
    }
    while h < rows
        invariant
            target.wf(),
            tw == tile_size.width,
            th == tile_size.height,
            tw > 0,
            th > 0,
            w < target.w() / tw,
            w * tw + tw <= target.w(),
            rows == target.h() / th,
            rows > 0 ==> tiles.len() > 0 && tiles_usable(kernel, tiles@),
            mosaic_accepts(kernel, target@, views(tiles@), tw as int, th as int),
            h <= rows,
            col.len() == h,
            forall|cy: int| 0 <= cy < h ==> #[trigger] col@[cy] < tiles.len(),
            forall|cy: int|
                0 <= cy < h ==> #[trigger] col@[cy] == chosen_tile(
                    kernel,
                    target@,
                    views(tiles@),
                    tw as int,
                    th as int,
                    w as int,
                    cy,
                ),
        decreases rows - h,
    {
        proof {
            lemma_cell_inside(target.h() as int, th as int, h as int, 0);
        }
        let target_tile = target.crop(w * tw, h * th, tw, th);
        assert(target_tile@ == cell(target@, tw as int, th as int, w as int, h as int));
        assert(kernel_accepts_all(
            kernel,
            views(tiles@),
            cell(target@, tw as int, th as int, w as int, h as int),
        ));
        let b = best_tile(tiles, &target_tile, kernel);
        proof {
            lemma_first_min_is(tile_errors(kernel, views(tiles@), target_tile@), b as int);
        }
        col.push(b);
        h = h + 1;
    }
    col
}

/// Well-formed tiles no larger than a `tw` by `th` cell.
pub open spec fn tiles_fit(tiles: Seq<RgbImage>, tw: int, th: int) -> bool {
    forall|t: int|
        0 <= t < tiles.len() ==> (#[trigger] tiles[t]).wf() && tiles[t].w() <= tw && tiles[t].h()
            <= th
}

/// What cell pixel `(i, j)` of cell `(cx, cy)` becomes when tile `t` is
/// written into that cell of `target`.
pub open spec fn paved_sample(
    target: Picture,
    tile: Picture,
    tw: int,
    th: int,
    cx: int,
    cy: int,
    i: int,
    j: int,
    c: int,
) -> u8 {
    if i < tile.width && j < tile.height {
        tile.sample(i, j, c)
    } else {
        cell_sample(target, tw, th, cx, cy, i, j, c)
    }
}

/// Writes tile `choices[cx][cy]` into each whole cell `(cx, cy)` of `target`.
pub fn assemble_mosaic(
    target: &mut RgbImage,
    tiles: &Vec<RgbImage>,
    tile_size: &Size,
    choices: &Vec<Vec<usize>>,
)
    requires
        tile_size.width > 0,
        tile_size.height > 0,
        tiles_fit(tiles@, tile_size.width as int, tile_size.height as int),
        choices.len() == old(target).w() / tile_size.width,
        forall|cx: int|
            0 <= cx < choices.len() ==> (#[trigger] choices@[cx]).len() == old(target).h()
                / tile_size.height,
        forall|cx: int, cy: int|
            0 <= cx < choices.len() && 0 <= cy < choices@[cx].len() ==> (
            #[trigger] choices@[cx]@[cy]) < tiles.len(),
    ensures
        paved(
            final(target)@,
            old(target)@,
            views(tiles@),
            |cx: int, cy: int| choices@[cx]@[cy] as int,
            tile_size.width as int,
            tile_size.height as int,
        ),
{
    proof {
        use_type_invariant(&*target);
    }
    let ghost orig = *target;
    let tw = tile_size.width;
    let th = tile_size.height;
    let cols: u32 = target.width() / tw;
    let rows: u32 = target.height() / th;
    let mut cx: u32 = 0;
    while cx < cols
        invariant
            target.wf(),
            orig.wf(),
            target.w() == orig.w(),
            target.h() == orig.h(),
            tw == tile_size.width,
            th == tile_size.height,
            tw > 0,
            th > 0,
            cols == orig.w() / tw,
            rows == orig.h() / th,
            tiles_fit(tiles@, tw as int, th as int),
            choices.len() == cols,
            forall|k: int| 0 <= k < choices.len() ==> (#[trigger] choices@[k]).len() == rows,
            forall|k: int, l: int|
                0 <= k < choices.len() && 0 <= l < choices@[k].len() ==> (
                #[trigger] choices@[k]@[l]) < tiles.len(),
            cx <= cols,
            forall|cx2: int, cy2: int, i: int, j: int, c: int|
                0 <= cx2 < cols && 0 <= cy2 < rows && 0 <= i < tw && 0 <= j < th && 0 <= c < 3
                    ==> #[trigger] cell_sample(target@, tw as int, th as int, cx2, cy2, i, j, c)
                    == if cx2 < cx {
                    paved_sample(
                        orig@,
                        views(tiles@)[choices@[cx2]@[cy2] as int],
                        tw as int,
                        th as int,
                        cx2,
                        cy2,
                        i,
                        j,
                        c,
                    )
                } else {
                    cell_sample(orig@, tw as int, th as int, cx2, cy2, i, j, c)
                },
            forall|x: int, y: int, c: int|
                0 <= x < orig.w() && 0 <= y < orig.h() && 0 <= c < 3 && (x >= cols * tw || y
                    >= rows * th) ==> #[trigger] target.sample(x, y, c) == orig.sample(x, y, c),
        decreases cols - cx,
    {
        let mut cy: u32 = 0;
        while cy < rows
            invariant
                target.wf(),
                orig.wf(),
                target.w() == orig.w(),
                target.h() == orig.h(),
                tw == tile_size.width,
                th == tile_size.height,
                tw > 0,
                th > 0,
                cols == orig.w() / tw,
                rows == orig.h() / th,
                tiles_fit(tiles@, tw as int, th as int),
                choices.len() == cols,
                forall|k: int| 0 <= k < choices.len() ==> (#[trigger] choices@[k]).len() == rows,
                forall|k: int, l: int|
                    0 <= k < choices.len() && 0 <= l < choices@[k].len() ==> (
                    #[trigger] choices@[k]@[l]) < tiles.len(),
                cx < cols,
                cy <= rows,
                forall|cx2: int, cy2: int, i: int, j: int, c: int|
                    0 <= cx2 < cols && 0 <= cy2 < rows && 0 <= i < tw && 0 <= j < th && 0 <= c
                        < 3 ==> #[trigger] cell_sample(target@, tw as int, th as int, cx2, cy2, i, j, c)
                        == if cx2 < cx || (cx2 == cx && cy2 < cy) {
                        paved_sample(
                            orig@,
                            views(tiles@)[choices@[cx2]@[cy2] as int],
                            tw as int,
                            th as int,
                            cx2,
                            cy2,
                            i,
                            j,
                            c,
                        )
                    } else {
                        cell_sample(orig@, tw as int, th as int, cx2, cy2, i, j, c)
                    },
                forall|x: int, y: int, c: int|
                    0 <= x < orig.w() && 0 <= y < orig.h() && 0 <= c < 3 && (x >= cols * tw || y
                        >= rows * th) ==> #[trigger] target.sample(x, y, c) == orig.sample(x, y, c),
            decreases rows - cy,
        {
            let t: usize = choices[cx as usize][cy as usize];
            let ghost prev = *target;
            proof {
                lemma_cell_inside(orig.w() as int, tw as int, cx as int, 0);
                lemma_cell_inside(orig.h() as int, th as int, cy as int, 0);
                assert(tiles@[t as int].wf());
            }
            let tile = &tiles[t];
            let res = target.copy_from(tile, cx * tw, cy * th);
            proof {
                assert(res is Ok);
                assert(views(tiles@)[t as int] == tile@);
                assert forall|cx2: int, cy2: int, i: int, j: int, c: int|
                    0 <= cx2 < cols && 0 <= cy2 < rows && 0 <= i < tw && 0 <= j < th && 0 <= c
                        < 3 implies #[trigger] cell_sample(target@, tw as int, th as int, cx2, cy2, i, j, c)
                    == if cx2 < cx || (cx2 == cx && cy2 < cy + 1) {
                    paved_sample(
                        orig@,
                        views(tiles@)[choices@[cx2]@[cy2] as int],
                        tw as int,
                        th as int,
                        cx2,
                        cy2,
                        i,
                        j,
                        c,
                    )
                } else {
                    cell_sample(orig@, tw as int, th as int, cx2, cy2, i, j, c)
                } by {
                    lemma_cell_inside(orig.w() as int, tw as int, cx2, i);
                    lemma_cell_inside(orig.h() as int, th as int, cy2, j);
                    let xx = cx2 * tw + i;
                    let yy = cy2 * th + j;
                    assert(cell_sample(prev@, tw as int, th as int, cx2, cy2, i, j, c) == prev.sample(xx, yy, c));
                    assert(target.sample(xx, yy, c) == if cx * tw <= xx < cx * tw + tile.w() && cy
                        * th <= yy < cy * th + tile.h() {
                        tile.sample(xx - cx * tw, yy - cy * th, c)
                    } else {
                        prev.sample(xx, yy, c)
                    });
                    if cx2 != cx {
                        lemma_cell_apart(tw as int, cx2, i, cx as int);
                    }
                    if cy2 != cy {
                        lemma_cell_apart(th as int, cy2, j, cy as int);
                    }
                }
                assert forall|x: int, y: int, c: int|
                    0 <= x < orig.w() && 0 <= y < orig.h() && 0 <= c < 3 && (x >= cols * tw || y
                        >= rows * th) implies #[trigger] target.sample(x, y, c) == orig.sample(x, y, c) by {
                    assert(prev.sample(x, y, c) == orig.sample(x, y, c));
                }
            }
            cy = cy + 1;
        }
        cx = cx + 1;
    }
    proof {
        let choice = |cx: int, cy: int| choices@[cx]@[cy] as int;
        assert forall|cx2: int, cy2: int, i: int, j: int, c: int|
            0 <= cx2 < target@.width / (tw as int) && 0 <= cy2 < target@.height / (th as int) && 0 <= i
                < tw && 0 <= j < th && 0 <= c < 3 implies #[trigger] cell_sample(target@, tw as int, th as int, cx2, cy2, i, j, c)
            == if i < views(tiles@)[choice(cx2, cy2)].width && j < views(tiles@)[choice(
            cx2,
            cy2,
        )].height {
            views(tiles@)[choice(cx2, cy2)].sample(i, j, c)
        } else {
            cell_sample(orig@, tw as int, th as int, cx2, cy2, i, j, c)
        } by {}
        assert forall|x: int, y: int, c: int|
            0 <= x < orig@.width && 0 <= y < orig@.height && 0 <= c < 3 && (x >= (orig@.width / (tw as int))
                * tw || y >= (orig@.height / (th as int)) * th) implies #[trigger] target@.sample(x, y, c)
            == orig@.sample(x, y, c) by {
            assert(target.sample(x, y, c) == orig.sample(x, y, c));
        }
    }
}

/// The mosaic of `target`: each whole cell gets the first tile at the least
/// distance from it. Columns are chosen one by one on the unchanged target,
/// then all tiles are written; by `lemma_overlay_keeps_other_cells` this is
/// the picture that choosing and writing cell by cell, in any order, gives.
pub fn build_mosaic(target: RgbImage, tiles: &Vec<RgbImage>, tile_size: &Size, kernel: L1Kernel) -> (r: RgbImage)
    requires
        tile_size.width > 0,
        tile_size.height > 0,
        has_cells(target@, tile_size.width as int, tile_size.height as int) ==> tiles.len() > 0
            && tiles_usable(kernel, tiles@),
        tiles_fit(tiles@, tile_size.width as int, tile_size.height as int),
        mosaic_accepts(
            kernel,
            target@,
            views(tiles@),
            tile_size.width as int,
            tile_size.height as int,
        ),
    ensures
        paved(
            r@,
            target@,
            views(tiles@),
            |cx: int, cy: int|
                chosen_tile(
                    kernel,
                    target@,
                    views(tiles@),
                    tile_size.width as int,
                    tile_size.height as int,
                    cx,
                    cy,
                ),
            tile_size.width as int,
            tile_size.height as int,
        ),
{
    proof {
        use_type_invariant(&target);
    }
    let tw = tile_size.width;
    let th = tile_size.height;
    let cols: u32 = target.width() / tw;
    let ghost rows = target.h() / th;
    let ghost tv = views(tiles@);
    let mut choices: Vec<Vec<usize>> = Vec::new();
    let mut w: u32 = 0;
    while w < cols
        invariant
            target.wf(),
            tw == tile_size.width,
            th == tile_size.height,
            tw > 0,
            th > 0,
            cols == target.w() / tw,
            rows == target.h() / th,
            tv == views(tiles@),
            cols > 0 && rows > 0 ==> tiles.len() > 0 && tiles_usable(kernel, tiles@),
            mosaic_accepts(kernel, target@, tv, tw as int, th as int),
            w <= cols,
            choices.len() == w,
            forall|k: int| 0 <= k < w ==> (#[trigger] choices@[k]).len() == rows,
            forall|k: int, l: int|
                0 <= k < w && 0 <= l < rows ==> #[trigger] choices@[k]@[l] == chosen_tile(
                    kernel,
                    target@,
                    tv,
                    tw as int,
                    th as int,
                    k,
                    l,
                ),
            forall|k: int, l: int|
                0 <= k < w && 0 <= l < rows ==> (#[trigger] choices@[k]@[l]) < tiles.len(),
        decreases cols - w,
    {
        let col = column_choices(&target, tiles, tile_size, w, kernel);
        proof {
            assert forall|l: int| 0 <= l < rows implies col@[l] < tiles.len() by {
                let e = tile_errors(kernel, tv, cell(target@, tw as int, th as int, w as int, l));
                assert(kernel_accepts_all(kernel, tv, cell(target@, tw as int, th as int, w as int, l)));
                assert(tiles.len() > 0);
                lemma_first_min_exists(e);
            }
        }
        choices.push(col);
        w = w + 1;
    }
    let mut result = target;
    assemble_mosaic(&mut result, tiles, tile_size, &choices);
    proof {
        let ch = |cx: int, cy: int| choices@[cx]@[cy] as int;
        let ct = |cx: int, cy: int| chosen_tile(kernel, target@, tv, tw as int, th as int, cx, cy);
        assert forall|cx: int, cy: int, i: int, j: int, c: int|
            0 <= cx < target@.width / (tw as int) && 0 <= cy < target@.height / (th as int) && 0 <= i
                < tw && 0 <= j < th && 0 <= c < 3 implies #[trigger] cell_sample(result@, tw as int, th as int, cx, cy, i, j, c)
            == if i < tv[ct(cx, cy)].width && j < tv[ct(cx, cy)].height {
            tv[ct(cx, cy)].sample(i, j, c)
        } else {
            cell_sample(target@, tw as int, th as int, cx, cy, i, j, c)
        } by {
            assert(ch(cx, cy) == ct(cx, cy));
        }
    }
    result
}

/// A nonempty sequence has a first least element.
pub proof fn lemma_first_min_exists(e: Seq<int>)
    requires
        e.len() > 0,
    ensures
        is_first_min(e, first_min(e)),
    decreases e.len(),
{
    if e.len() == 1 {
        assert(is_first_min(e, 0));
    } else {
        let d = e.drop_last();
        lemma_first_min_exists(d);
        let k = first_min(d);
        let last = e.len() - 1;
        if e[last] < d[k] {
            assert forall|j: int| 0 <= j < e.len() implies e[last] <= #[trigger] e[j] by {
                if j < last {
                    assert(d[k] <= d[j]);
                }
            }
            assert forall|j: int| 0 <= j < last implies e[last] < #[trigger] e[j] by {
                assert(d[k] <= d[j]);
            }
            assert(is_first_min(e, last));
        } else {
            assert forall|j: int| 0 <= j < e.len() implies e[k] <= #[trigger] e[j] by {
                if j < last {
                    assert(d[k] <= d[j]);
                }
            }
            assert forall|j: int| 0 <= j < k implies e[k] < #[trigger] e[j] by {
                assert(d[k] < d[j]);
            }
            assert(is_first_min(e, k));
        }
    }
}

/// A paving fixes the picture: for one target, one list of tiles and one
/// tile per cell there is a single mosaic. Whatever order the cells or
/// columns are chosen and written in, and however they are shared among
/// threads, the result is the same.
pub proof fn lemma_paved_unique(
    r1: Picture,
    r2: Picture,
    target: Picture,
    tiles: Seq<Picture>,
    choice: spec_fn(int, int) -> int,
    tw: int,
    th: int,
)
    requires
        0 < tw,
        0 < th,
        0 <= target.width,
        0 <= target.height,
        r1.bytes.len() == 3 * target.width * target.height,
        r2.bytes.len() == 3 * target.width * target.height,
        paved(r1, target, tiles, choice, tw, th),
        paved(r2, target, tiles, choice, tw, th),
    ensures
        r1 == r2,
{
    let w = target.width;
    let h = target.height;
    if w > 0 {
        assert forall|k: int| 0 <= k < r1.bytes.len() implies r1.bytes[k] == r2.bytes[k] by {
            lemma_offset_encode(w, h, k);
            let x = (k / 3) % w;
            let y = (k / 3) / w;
            let c = k % 3;
            if x < (w / tw) * tw && y < (h / th) * th {
                lemma_fundamental_div_mod(x, tw);
                lemma_fundamental_div_mod(y, th);
                let cx = x / tw;
                let cy = y / th;
                let i = x % tw;
                let j = y % th;
                assert(0 <= cx < w / tw && 0 <= i < tw) by (nonlinear_arith)
                    requires
                        0 < tw,
                        0 <= x < (w / tw) * tw,
                        x == tw * cx + i,
                        0 <= i < tw,
                ;
                assert(0 <= cy < h / th && 0 <= j < th) by (nonlinear_arith)
                    requires
                        0 < th,
                        0 <= y < (h / th) * th,
                        y == th * cy + j,
                        0 <= j < th,
                ;
                assert(cx * tw + i == x && cy * th + j == y) by (nonlinear_arith)
                    requires
                        x == tw * cx + i,
                        y == th * cy + j,
                ;
                assert(cell_sample(r1, tw, th, cx, cy, i, j, c) == cell_sample(r2, tw, th, cx, cy, i, j, c));
            } else {
                assert(r1.sample(x, y, c) == target.sample(x, y, c));
                assert(r2.sample(x, y, c) == target.sample(x, y, c));
            }
        }
    } else {
        assert(3 * w * h == 0) by (nonlinear_arith)
            requires
                w == 0,
        ;
    }
    assert(r1.bytes =~= r2.bytes);
}

/// SIMD never changes the mosaic: for tiles no larger than a cell, every
/// kernel chooses for each cell the tile that the portable kernel chooses.
pub proof fn lemma_kernel_keeps_choice(
    kernel: L1Kernel,
    target: Picture,
    tiles: Seq<Picture>,
    tw: int,
    th: int,
    cx: int,
    cy: int,
)
    requires
        0 <= tw,
        0 <= th,
        forall|t: int| 0 <= t < tiles.len() ==> (#[trigger] tiles[t]).bytes.len() <= 3 * tw * th,
    ensures
        chosen_tile(kernel, target, tiles, tw, th, cx, cy) == chosen_tile(
            L1Kernel::Generic,
            target,
            tiles,
            tw,
            th,
            cx,
            cy,
        ),
{
    let c = cell(target, tw, th, cx, cy);
    assert(0 <= 3 * tw * th) by (nonlinear_arith)
        requires
            0 <= tw,
            0 <= th,
    ;
    lemma_tile_errors_agree(kernel, tiles, c);
}

/// Every kernel measures the same distances from a picture to tiles no
/// longer than it.
pub proof fn lemma_tile_errors_agree(kernel: L1Kernel, tiles: Seq<Picture>, c: Picture)
    requires
        forall|t: int| 0 <= t < tiles.len() ==> (#[trigger] tiles[t]).bytes.len() <= c.bytes.len(),
    ensures
        tile_errors(kernel, tiles, c) == tile_errors(L1Kernel::Generic, tiles, c),
{
    assert forall|t: int| 0 <= t < tiles.len() implies kernel_l1(kernel, tiles[t].bytes, c.bytes)
        == kernel_l1(L1Kernel::Generic, tiles[t].bytes, c.bytes) by {
        lemma_block_kernel_matches_generic(kernel, tiles[t].bytes, c.bytes);
    }
    assert(tile_errors(kernel, tiles, c) =~= tile_errors(L1Kernel::Generic, tiles, c));
}

/// The `nw` by `nh` picture that nearest-neighbour resampling gives.
pub open spec fn resized(p: Picture, nw: u32, nh: u32) -> Picture {
    Picture {
        width: nw as int,
        height: nh as int,
        bytes: nearest_resize(p.width as u32, p.height as u32, p.bytes, nw, nh),
    }
}

/// The resampling of `p` to `nw` by `nh` stays within the buffer sizes that
/// can be allocated.
pub open spec fn resizable(p: Picture, nw: int, nh: int) -> bool {
    &&& 3 * nw * nh <= isize::MAX
    &&& p.width == 0 || p.height == 0 || (nw == p.width && nh == p.height) || 16 * p.width * nh
        <= isize::MAX
}

/// The target scaled by `scale`, then cut down at the right and at the
/// bottom to whole `tw` by `th` cells.
pub open spec fn prepared_target(target: Picture, scale: u32, tw: u32, th: u32) -> Picture {
    let nw = target.width * scale;
    let nh = target.height * scale;
    resized(target, nw as u32, nh as u32).crop(0, 0, nw - nw % (tw as int), nh - nh % (th as int))
}

/// Scales the target by `scale` (nearest neighbour) and drops the pixels
/// right of and below the last whole tile.
pub fn prepare_target(target: RgbImage, scale: u32, tile_size: &Size) -> (r: RgbImage)
    requires
        tile_size.width > 0,
        tile_size.height > 0,
        target.w() * scale <= u32::MAX,
        target.h() * scale <= u32::MAX,
        resizable(target@, target.w() * scale, target.h() * scale),
    ensures
        r@ == prepared_target(target@, scale, tile_size.width, tile_size.height),
        r.w() == target.w() * scale - (target.w() * scale) % (tile_size.width as int),
        r.h() == target.h() * scale - (target.h() * scale) % (tile_size.height as int),
        r.w() % tile_size.width == 0,
        r.h() % tile_size.height == 0,
        scale == 1 ==> r@ == target@.crop(0, 0, r.w() as int, r.h() as int),
        forall|x: int, y: int, c: int|
            0 <= x < r.w() && 0 <= y < r.h() && 0 <= c < 3 ==> #[trigger] r@.sample(x, y, c)
                == nearest_resize(
                target.w(),
                target.h(),
                target.bytes(),
                (target.w() * scale) as u32,
                (target.h() * scale) as u32,
            )[pixel_offset(target.w() * scale, x, y) + c],
{
    proof {
        use_type_invariant(&target);
    }
    let nw: u32 = target.width() * scale;
    let nh: u32 = target.height() * scale;
    let t = resize_nearest(&target, nw, nh);
    proof {
        lemma_fundamental_div_mod(nw as int, tile_size.width as int);
        lemma_fundamental_div_mod(nh as int, tile_size.height as int);
        assert((tile_size.width * (nw / tile_size.width)) % (tile_size.width as int) == 0) by (nonlinear_arith)
            requires
                tile_size.width > 0,
        ;
        assert((tile_size.height * (nh / tile_size.height)) % (tile_size.height as int) == 0) by (nonlinear_arith)
            requires
                tile_size.height > 0,
        ;
    }
    let r = t.crop(0, 0, nw - nw % tile_size.width, nh - nh % tile_size.height);
    proof {
        assert forall|x: int, y: int, c: int|
            0 <= x < r.w() && 0 <= y < r.h() && 0 <= c < 3 implies #[trigger] r@.sample(x, y, c)
                == nearest_resize(
                target.w(),
                target.h(),
                target.bytes(),
                nw,
                nh,
            )[pixel_offset(nw as int, x, y) + c] by {
            assert(r.sample(x, y, c) == t.sample(x, y, c));
        }
        assert(t@ == resized(target@, nw, nh));
        if scale == 1 {
            assert(t@ == target@);
        }
    }
    r
}

/// The prepared target is the top left corner of the resampled target:
/// pixel `(x, y)` of it is pixel `(x, y)` of the `scale` times larger
/// nearest-neighbour resample, and only the strips right of and below the
/// last whole `tw` by `th` cell are dropped.
pub proof fn lemma_prepared_target_is_top_left(
    target: Picture,
    scale: u32,
    tw: u32,
    th: u32,
    x: int,
    y: int,
    c: int,
)
    requires
        tw > 0,
        th > 0,
        0 <= target.width * scale <= u32::MAX,
        0 <= target.height * scale <= u32::MAX,
        0 <= x < target.width * scale - (target.width * scale) % (tw as int),
        0 <= y < target.height * scale - (target.height * scale) % (th as int),
        0 <= c < 3,
    ensures
        prepared_target(target, scale, tw, th).width == target.width * scale - (target.width * scale)
            % (tw as int),
        prepared_target(target, scale, tw, th).height == target.height * scale - (target.height
            * scale) % (th as int),
        prepared_target(target, scale, tw, th).sample(x, y, c) == nearest_resize(
            target.width as u32,
            target.height as u32,
            target.bytes,
            (target.width * scale) as u32,
            (target.height * scale) as u32,
        )[pixel_offset(target.width * scale, x, y) + c],
{
    let w2 = target.width * scale - (target.width * scale) % (tw as int);
    let h2 = target.height * scale - (target.height * scale) % (th as int);
    lemma_offset_decode(w2, x, y, c);
    lemma_pixel_offset_bounds(w2, h2, x, y);
}

/// Every tile that could be read is prepared as the nearest-neighbour
/// resample of the whole picture to the tile size, whatever its own size;
/// one that could not be read becomes a picture of no pixels.
pub proof fn lemma_prepared_tiles_are_resamples(decoded: Seq<Option<RgbImage>>, ts: u32, t: int)
    requires
        0 <= t < decoded.len(),
    ensures
        decoded[t] matches Some(p) ==> prepared_tiles(decoded, ts)[t] == (Picture {
            width: ts as int,
            height: ts as int,
            bytes: nearest_resize(p.w(), p.h(), p.bytes(), ts, ts),
        }),
        decoded[t] is None ==> prepared_tiles(decoded, ts)[t] == (Picture {
            width: 0,
            height: 0,
            bytes: Seq::empty(),
        }),
{
}

/// `Some` picture as its view.
pub open spec fn opt_view(o: Option<RgbImage>) -> Option<Picture> {
    match o {
        Some(i) => Some(i@),
        None => None,
    }
}

/// A tile ready for matching: a picture that could be read, scaled to the
/// tile size; one that could not, a picture of no pixels.
pub open spec fn prepared_tile(decoded: Option<Picture>, tw: u32, th: u32) -> Picture {
    match decoded {
        Some(p) => resized(p, tw, th),
        None => Picture { width: 0, height: 0, bytes: Seq::empty() },
    }
}

/// Tiles that could be read can be scaled to `tw` by `th`.
pub open spec fn tiles_resizable(decoded: Seq<Option<RgbImage>>, tw: int, th: int) -> bool {
    forall|t: int|
        0 <= t < decoded.len() ==> (#[trigger] decoded[t] matches Some(p) ==> p.wf() && resizable(
            p@,
            tw,
            th,
        ))
}

/// Scales every tile that could be read to the tile size (nearest
/// neighbour); a tile that could not be read stays a picture of no pixels.
pub fn prepare_tiles(decoded: &Vec<Option<RgbImage>>, tile_size: &Size) -> (tiles: Vec<RgbImage>)
    requires
        tiles_resizable(decoded@, tile_size.width as int, tile_size.height as int),
    ensures
        tiles.len() == decoded.len(),
        forall|t: int|
            0 <= t < tiles.len() ==> (#[trigger] tiles@[t]).wf() && tiles@[t]@ == prepared_tile(
                opt_view(decoded@[t]),
                tile_size.width,
                tile_size.height,
            ),
        forall|t: int|
            0 <= t < tiles.len() && (#[trigger] decoded@[t] matches Some(p) && p.w() == tile_size.width
                && p.h() == tile_size.height) ==> tiles@[t]@ == decoded@[t].unwrap()@,
        forall|t: int|
            0 <= t < tiles.len() ==> (#[trigger] decoded@[t] matches Some(p) ==> tiles@[t].w()
                == tile_size.width && tiles@[t].h() == tile_size.height && tiles@[t].bytes()
                == nearest_resize(p.w(), p.h(), p.bytes(), tile_size.width, tile_size.height)),
        forall|t: int|
            0 <= t < tiles.len() ==> (#[trigger] decoded@[t] is None ==> tiles@[t].w() == 0
                && tiles@[t].h() == 0 && tiles@[t].bytes().len() == 0),
{
    let mut tiles: Vec<RgbImage> = Vec::new();
    let mut i: usize = 0;
    while i < decoded.len()
        invariant
            tiles_resizable(decoded@, tile_size.width as int, tile_size.height as int),
            i <= decoded.len(),
            tiles.len() == i,
            forall|t: int|
                0 <= t < i ==> (#[trigger] tiles@[t]).wf() && tiles@[t]@ == prepared_tile(
                    opt_view(decoded@[t]),
                    tile_size.width,
                    tile_size.height,
                ),
            forall|t: int|
                0 <= t < i && (#[trigger] decoded@[t] matches Some(p) && p.w() == tile_size.width
                    && p.h() == tile_size.height) ==> tiles@[t]@ == decoded@[t].unwrap()@,
            forall|t: int|
                0 <= t < i ==> (#[trigger] decoded@[t] matches Some(p) ==> tiles@[t].w()
                    == tile_size.width && tiles@[t].h() == tile_size.height && tiles@[t].bytes()
                    == nearest_resize(p.w(), p.h(), p.bytes(), tile_size.width, tile_size.height)),
            forall|t: int|
                0 <= t < i ==> (#[trigger] decoded@[t] is None ==> tiles@[t].w() == 0
                    && tiles@[t].h() == 0 && tiles@[t].bytes().len() == 0),
        decreases decoded.len() - i,
    {
        let tile = match &decoded[i] {
            Some(img) => {
                assert(decoded@[i as int] matches Some(p) ==> p.wf());
                resize_nearest(img, tile_size.width, tile_size.height)
            },
            None => {
                let t = RgbImage::new(0, 0);
                assert(t@.bytes =~= Seq::<u8>::empty());
                t
            },
        };
        tiles.push(tile);
        i = i + 1;
    }
    tiles
}

/// Block kernels need tiles whose pixel count fits a `u32`.
pub open spec fn tiles_small(kernel: L1Kernel, tiles: Seq<Picture>) -> bool {
    forall|t: int|
        0 <= t < tiles.len() ==> kernel != L1Kernel::Generic ==> (#[trigger] tiles[t]).width
            * tiles[t].height <= u32::MAX
}

/// Whether the mosaic of `target` can be built with `kernel`: trivially so
/// without a whole cell; otherwise every tile must suit the kernel and the
/// kernel must run without fault between every tile and every cell.
pub open spec fn mosaic_runs(kernel: L1Kernel, target: Picture, tiles: Seq<Picture>, tw: int, th: int) -> bool {
    has_cells(target, tw, th) ==> tiles_small(kernel, tiles) && mosaic_accepts(
        kernel,
        target,
        tiles,
        tw,
        th,
    )
}

/// Tiles no larger than a cell can always be matched, with any kernel, as
/// long as each distance fits an `i32` and, for a block kernel, each
/// tile's pixel count fits a `u32`; no other size limit applies.
pub proof fn lemma_mosaic_runs_when_distances_fit(
    kernel: L1Kernel,
    target: Picture,
    tiles: Seq<Picture>,
    tw: int,
    th: int,
)
    requires
        0 < tw,
        0 < th,
        forall|t: int|
            0 <= t < tiles.len() ==> 0 <= (#[trigger] tiles[t]).width <= tw && 0 <= tiles[t].height <= th
                && tiles[t].bytes.len() == 3 * tiles[t].width * tiles[t].height,
        forall|t: int|
            0 <= t < tiles.len() ==> kernel != L1Kernel::Generic ==> (#[trigger] tiles[t]).width
                * tiles[t].height <= u32::MAX,
        forall|t: int, cx: int, cy: int|
            #![trigger tiles[t], cell(target, tw, th, cx, cy)]
            0 <= t < tiles.len() && 0 <= cx < target.width / tw && 0 <= cy < target.height / th
                ==> l1_distance(tiles[t].bytes, cell(target, tw, th, cx, cy).bytes) <= i32::MAX,
    ensures
        mosaic_runs(kernel, target, tiles, tw, th),
{
    assert forall|cx: int, cy: int|
        0 <= cx < target.width / tw && 0 <= cy < target.height / th implies #[trigger] kernel_accepts_all(
        kernel,
        tiles,
        cell(target, tw, th, cx, cy),
    ) by {
        let c = cell(target, tw, th, cx, cy);
        assert forall|t: int| 0 <= t < tiles.len() implies #[trigger] kernel_accepts(
            kernel,
            tiles[t].bytes,
            c.bytes,
        ) by {
            let w = tiles[t].width;
            let h = tiles[t].height;
            assert(3 * w * h <= 3 * tw * th) by (nonlinear_arith)
                requires
                    0 <= w <= tw,
                    0 <= h <= th,
            ;
            assert(l1_distance(tiles[t].bytes, c.bytes) <= i32::MAX);
        }
    }
}

/// Decides `mosaic_runs`. When the distances cannot exceed `i32::MAX` for
/// the cell size, only the tile sizes are checked; otherwise every distance
/// is summed up to the point where it would.
pub fn check_mosaic_runs(
    kernel: L1Kernel,
    target: &RgbImage,
    tiles: &Vec<RgbImage>,
    tile_size: &Size,
) -> (ok: bool)
    requires
        tile_size.width > 0,
        tile_size.height > 0,
        tiles_fit(tiles@, tile_size.width as int, tile_size.height as int),
    ensures
        ok == mosaic_runs(
            kernel,
            target@,
            views(tiles@),
            tile_size.width as int,
            tile_size.height as int,
        ),
        (forall|t: int|
            0 <= t < tiles.len() ==> kernel != L1Kernel::Generic ==> (#[trigger] tiles@[t]).w()
                * tiles@[t].h() <= u32::MAX) && (forall|t: int, cx: int, cy: int|
            #![trigger tiles@[t], cell(target@, tile_size.width as int, tile_size.height as int, cx, cy)]
            0 <= t < tiles.len() && 0 <= cx < target.w() / tile_size.width && 0 <= cy < target.h()
                / tile_size.height ==> l1_distance(
                tiles@[t].bytes(),
                cell(target@, tile_size.width as int, tile_size.height as int, cx, cy).bytes,
            ) <= i32::MAX) ==> ok,
{
    proof {
        use_type_invariant(target);
        let tv = views(tiles@);
        let tw = tile_size.width as int;
        let th = tile_size.height as int;
        if (forall|t: int|
            0 <= t < tiles.len() ==> kernel != L1Kernel::Generic ==> (#[trigger] tiles@[t]).w()
                * tiles@[t].h() <= u32::MAX) && (forall|t: int, cx: int, cy: int|
            #![trigger tiles@[t], cell(target@, tw, th, cx, cy)]
            0 <= t < tiles.len() && 0 <= cx < target.w() / tile_size.width && 0 <= cy < target.h()
                / tile_size.height ==> l1_distance(tiles@[t].bytes(), cell(target@, tw, th, cx, cy).bytes)
                <= i32::MAX) {
            assert forall|t: int| 0 <= t < tv.len() implies 0 <= (#[trigger] tv[t]).width <= tw && 0
                <= tv[t].height <= th && tv[t].bytes.len() == 3 * tv[t].width * tv[t].height by {
                assert(tiles@[t].wf());
            }
            assert forall|t: int| 0 <= t < tv.len() && kernel != L1Kernel::Generic implies (
            #[trigger] tv[t]).width * tv[t].height <= u32::MAX by {
                assert(tiles@[t].w() == tv[t].width);
            }
            assert forall|t: int, cx: int, cy: int|
                #![trigger tv[t], cell(target@, tw, th, cx, cy)]
                0 <= t < tv.len() && 0 <= cx < target@.width / tw && 0 <= cy < target@.height / th
                    implies l1_distance(tv[t].bytes, cell(target@, tw, th, cx, cy).bytes) <= i32::MAX by {
                assert(tiles@[t].bytes() == tv[t].bytes);
            }
            lemma_mosaic_runs_when_distances_fit(kernel, target@, tv, tw, th);
        }
    }
    let tw = tile_size.width;
    let th = tile_size.height;
    let cols: u32 = target.width() / tw;
    let rows: u32 = target.height() / th;
    let ghost tv = views(tiles@);
    if cols == 0 || rows == 0 {
        return true;
    }
    let target_len: usize = target.as_raw().len();
    proof {
        lemma_cell_inside(target.w() as int, tw as int, 0, 0);
        lemma_cell_inside(target.h() as int, th as int, 0, 0);
        assert(3 * (tw as int) * (th as int) <= 3 * target.w() * target.h()) by (nonlinear_arith)
            requires
                tw <= target.w(),
                th <= target.h(),
        ;
        assert((tw as int) * (th as int) <= 3 * (tw as int) * (th as int)) by (nonlinear_arith);
        assert(has_cells(target@, tw as int, th as int));
        assert(tv.len() == tiles.len());
    }
    let twh: usize = (tw as usize) * (th as usize);
    assert(3 * twh == 3 * tw * th) by (nonlinear_arith)
        requires
            twh == (tw as int) * (th as int),
    ;
    let cell_len: usize = 3 * twh;
    let generic = match kernel {
        L1Kernel::Generic => true,
        _ => false,
    };
    // sizes
    let mut t: usize = 0;
    while t < tiles.len()
        invariant
            tiles_fit(tiles@, tw as int, th as int),
            tv == views(tiles@),
            tw == tile_size.width,
            th == tile_size.height,
            tw > 0,
            th > 0,
            cell_len == 3 * tw * th,
            has_cells(target@, tw as int, th as int),
            generic == (kernel == L1Kernel::Generic),
            (forall|t: int|
                0 <= t < tiles.len() ==> kernel != L1Kernel::Generic ==> (#[trigger] tiles@[t]).w()
                    * tiles@[t].h() <= u32::MAX) && (forall|t: int, cx3: int, cy3: int|
                #![trigger tiles@[t], cell(target@, tw as int, th as int, cx3, cy3)]
                0 <= t < tiles.len() && 0 <= cx3 < target.w() / tw && 0 <= cy3 < target.h() / th
                    ==> l1_distance(tiles@[t].bytes(), cell(target@, tw as int, th as int, cx3, cy3).bytes)
                    <= i32::MAX) ==> mosaic_runs(kernel, target@, tv, tw as int, th as int),
            t <= tiles.len(),
            forall|k: int|
                0 <= k < t ==> !generic ==> (#[trigger] tiles@[k]).w() * tiles@[k].h()
                    <= u32::MAX && tiles@[k].bytes().len() <= cell_len,
        decreases tiles.len() - t,
    {
        if !generic {
            let tile = &tiles[t];
            let n: usize = tile.as_raw().len();
            assert((tile.w() as int) * (tile.h() as int) <= 0xffff_ffff * 0xffff_ffff) by (nonlinear_arith)
                requires
                    tile.w() <= 0xffff_ffff,
                    tile.h() <= 0xffff_ffff,
            ;
            if (tile.width() as u128) * (tile.height() as u128) > 0xffff_ffffu128 {
                assert(tv.len() == tiles.len());
                assert(tv[t as int] == tiles@[t as int]@);
                assert(!tiles_small(kernel, tv));
                assert(has_cells(target@, tw as int, th as int));
                return false;
            }
            if n > cell_len {
                proof {
                    let c0 = cell(target@, tw as int, th as int, 0, 0);
                    assert(tv.len() == tiles.len());
                    assert(tv[t as int] == tiles@[t as int]@);
                    assert(!kernel_accepts(kernel, tv[t as int].bytes, c0.bytes));
                    assert(!kernel_accepts_all(kernel, tv, c0));
                }
                return false;
            }
        }
        t = t + 1;
    }
    assert(tiles_usable(kernel, tiles@));
    if (cell_len as u64) <= 8421504u64 {
        // 255 * cell_len <= i32::MAX: no distance can overflow
        proof {
            assert forall|cx: int, cy: int|
                0 <= cx < target@.width / (tw as int) && 0 <= cy < target@.height / (th as int)
                    implies #[trigger] kernel_accepts_all(kernel, tv, cell(target@, tw as int, th as int, cx, cy)) by {
                let cb = cell(target@, tw as int, th as int, cx, cy).bytes;
                assert forall|k: int| 0 <= k < tv.len() implies #[trigger] kernel_accepts(
                    kernel,
                    tv[k].bytes,
                    cb,
                ) by {
                    let a = tv[k].bytes;
                    assert(tiles@[k].wf());
                    let m = if a.len() <= cb.len() { a.len() as int } else { cb.len() as int };
                    lemma_sad_bound(a, cb, 0, m);
                    lemma_sad_bound(a, cb, 0, a.len() as int);
                }
            }
        }
        return true;
    }
    // exact sums
    let mut cx: u32 = 0;
    while cx < cols
        invariant
            target.wf(),
            tiles_fit(tiles@, tw as int, th as int),
            tiles_usable(kernel, tiles@),
            tv == views(tiles@),
            generic == (kernel == L1Kernel::Generic),
            tw == tile_size.width,
            th == tile_size.height,
            tw > 0,
            th > 0,
            cols == target.w() / tw,
            rows == target.h() / th,
            has_cells(target@, tw as int, th as int),
            cell_len == 3 * tw * th,
            forall|k: int|
                0 <= k < tiles.len() ==> !generic ==> (#[trigger] tiles@[k]).bytes().len() <= cell_len,
            (forall|t: int|
                0 <= t < tiles.len() ==> kernel != L1Kernel::Generic ==> (#[trigger] tiles@[t]).w()
                    * tiles@[t].h() <= u32::MAX) && (forall|t: int, cx3: int, cy3: int|
                #![trigger tiles@[t], cell(target@, tw as int, th as int, cx3, cy3)]
                0 <= t < tiles.len() && 0 <= cx3 < target.w() / tw && 0 <= cy3 < target.h() / th
                    ==> l1_distance(tiles@[t].bytes(), cell(target@, tw as int, th as int, cx3, cy3).bytes)
                    <= i32::MAX) ==> mosaic_runs(kernel, target@, tv, tw as int, th as int),
            cx <= cols,
            forall|cx2: int, cy2: int|
                0 <= cx2 < cx && 0 <= cy2 < rows ==> #[trigger] kernel_accepts_all(
                    kernel,
                    tv,
                    cell(target@, tw as int, th as int, cx2, cy2),
                ),
        decreases cols - cx,
    {
        let mut cy: u32 = 0;
        while cy < rows
            invariant
                target.wf(),
                tiles_fit(tiles@, tw as int, th as int),
                tiles_usable(kernel, tiles@),
                tv == views(tiles@),
                generic == (kernel == L1Kernel::Generic),
                    tw == tile_size.width,
                th == tile_size.height,
                tw > 0,
                th > 0,
                cols == target.w() / tw,
                rows == target.h() / th,
                has_cells(target@, tw as int, th as int),
                cell_len == 3 * tw * th,
                forall|k: int|
                    0 <= k < tiles.len() ==> !generic ==> (#[trigger] tiles@[k]).bytes().len() <= cell_len,
                (forall|t: int|
                    0 <= t < tiles.len() ==> kernel != L1Kernel::Generic ==> (#[trigger] tiles@[t]).w()
                        * tiles@[t].h() <= u32::MAX) && (forall|t: int, cx3: int, cy3: int|
                    #![trigger tiles@[t], cell(target@, tw as int, th as int, cx3, cy3)]
                    0 <= t < tiles.len() && 0 <= cx3 < target.w() / tw && 0 <= cy3 < target.h() / th
                        ==> l1_distance(tiles@[t].bytes(), cell(target@, tw as int, th as int, cx3, cy3).bytes)
                        <= i32::MAX) ==> mosaic_runs(kernel, target@, tv, tw as int, th as int),
                cx < cols,
                cy <= rows,
                forall|cx2: int, cy2: int|
                    (0 <= cx2 < cx && 0 <= cy2 < rows) || (cx2 == cx && 0 <= cy2 < cy)
                        ==> #[trigger] kernel_accepts_all(
                        kernel,
                        tv,
                        cell(target@, tw as int, th as int, cx2, cy2),
                    ),
            decreases rows - cy,
        {
            proof {
                lemma_cell_inside(target.w() as int, tw as int, cx as int, 0);
                lemma_cell_inside(target.h() as int, th as int, cy as int, 0);
            }
            let c = target.crop(cx * tw, cy * th, tw, th);
            let b = c.as_raw();
            let ghost cb = cell(target@, tw as int, th as int, cx as int, cy as int).bytes;
            assert(b@ == cb);
            let mut k: usize = 0;
            while k < tiles.len()
                invariant
                    tiles_fit(tiles@, tw as int, th as int),
                    tv == views(tiles@),
                    has_cells(target@, tw as int, th as int),
                    tw == tile_size.width,
                    th == tile_size.height,
                    cx < cols,
                    cy < rows,
                    cols == target.w() / tw,
                    rows == target.h() / th,
                    cb == cell(target@, tw as int, th as int, cx as int, cy as int).bytes,
                    generic == (kernel == L1Kernel::Generic),
                            b@ == cb,
                    b@.len() == cell_len,
                    forall|j: int|
                        0 <= j < tiles.len() ==> !generic ==> (#[trigger] tiles@[j]).bytes().len() <= cell_len,
                    (forall|t: int|
                        0 <= t < tiles.len() ==> kernel != L1Kernel::Generic ==> (#[trigger] tiles@[t]).w()
                            * tiles@[t].h() <= u32::MAX) && (forall|t: int, cx3: int, cy3: int|
                        #![trigger tiles@[t], cell(target@, tw as int, th as int, cx3, cy3)]
                        0 <= t < tiles.len() && 0 <= cx3 < target.w() / tw && 0 <= cy3 < target.h() / th
                            ==> l1_distance(tiles@[t].bytes(), cell(target@, tw as int, th as int, cx3, cy3).bytes)
                            <= i32::MAX) ==> mosaic_runs(kernel, target@, tv, tw as int, th as int),
                    k <= tiles.len(),
                    forall|j: int| 0 <= j < k ==> #[trigger] kernel_accepts(kernel, tv[j].bytes, cb),
                decreases tiles.len() - k,
            {
                let a = tiles[k].as_raw();
                assert(tiles@[k as int].wf());
                let n: usize = if generic {
                    if a.len() <= b.len() {
                        a.len()
                    } else {
                        b.len()
                    }
                } else {
                    a.len()
                };
                if sad_exceeds_i32(a, b, n) {
                    proof {
                        assert(tv.len() == tiles.len());
                        assert(tv[k as int] == tiles@[k as int]@);
                        assert(!kernel_accepts(kernel, tv[k as int].bytes, cb));
                        assert(!kernel_accepts_all(
                            kernel,
                            tv,
                            cell(target@, tw as int, th as int, cx as int, cy as int),
                        ));
                        assert(has_cells(target@, tw as int, th as int));
                    }
                    return false;
                }
                k = k + 1;
            }
            assert(kernel_accepts_all(
                kernel,
                tv,
                cell(target@, tw as int, th as int, cx as int, cy as int),
            ));
            cy = cy + 1;
        }
        cx = cx + 1;
    }
    true
}

/// The tiles as they are matched: each read tile scaled to `ts` by `ts`.
pub open spec fn prepared_tiles(decoded: Seq<Option<RgbImage>>, ts: u32) -> Seq<Picture> {
    Seq::new(decoded.len(), |t: int| prepared_tile(opt_view(decoded[t]), ts, ts))
}

/// Number of cells of the mosaic of a target prepared as `p`, as the signed
/// count that is compared with the number of available tiles.
pub open spec fn required_tiles(p: Picture, ts: int) -> i32 {
    ((p.width / ts) * (p.height / ts)) as i32
}

/// The inputs for which `compute_mosaic` runs: a nonzero tile size, and
/// sizes for which the scaled target, the scaled tiles and the cell count fit
/// their integer types and buffers.
pub open spec fn mosaic_inputs_ok(args: &Options, target: RgbImage, decoded: Seq<Option<RgbImage>>) -> bool {
    &&& args.tile_size > 0
    &&& target.w() * args.scaling <= u32::MAX
    &&& target.h() * args.scaling <= u32::MAX
    &&& resizable(target@, target.w() * args.scaling, target.h() * args.scaling)
    &&& tiles_resizable(decoded, args.tile_size as int, args.tile_size as int)
    &&& ((target.w() * args.scaling) / (args.tile_size as int)) * ((target.h() * args.scaling) / (
    args.tile_size as int)) <= u32::MAX
}

/// Everything a mosaic is built from, checked: the prepared target and
/// tiles, the tile size, the kernel, and whether a tile may fill only one
/// cell.
pub struct MosaicPlan {
    pub target: RgbImage,
    pub tiles: Vec<RgbImage>,
    pub tile_size: Size,
    pub kernel: L1Kernel,
    /// The kernel was picked for this run and is to be announced on a
    /// verbose run.
    pub announce: bool,
    pub distinct: bool,
}

/// The inputs of `build_mosaic` (and, for a plan with distinct tiles, of
/// `build_distinct_mosaic`) that a plan meets.
pub open spec fn plan_ready(plan: MosaicPlan) -> bool {
    let ts = plan.tile_size;
    &&& ts.width > 0
    &&& ts.height > 0
    &&& has_cells(plan.target@, ts.width as int, ts.height as int) ==> plan.tiles.len() > 0
        && tiles_usable(plan.kernel, plan.tiles@)
    &&& tiles_fit(plan.tiles@, ts.width as int, ts.height as int)
    &&& mosaic_accepts(
        plan.kernel,
        plan.target@,
        views(plan.tiles@),
        ts.width as int,
        ts.height as int,
    )
    &&& plan.distinct ==> (plan.target.w() / ts.width) * (plan.target.h() / ts.height)
        <= plan.tiles.len()
}

/// The count of cells of the prepared target `target`, and whether there
/// are tiles enough for them when `remove_used` is asked for.
pub fn check_tile_supply(args: &Options, target: &RgbImage, nb_available_tiles: i32) -> (r: Result<i32, MosaicError>)
    requires
        args.tile_size > 0,
        (target.w() / args.tile_size) * (target.h() / args.tile_size) <= u32::MAX,
    ensures
        ({
            let required = required_tiles(target@, args.tile_size as int);
            &&& args.remove_used && required > nb_available_tiles ==> r == Err::<i32, MosaicError>(
                MosaicError::NotEnoughTiles { required, available: nb_available_tiles },
            )
            &&& !(args.remove_used && required > nb_available_tiles) ==> r == Ok::<i32, MosaicError>(required)
        }),
{
    let ts = args.tile_size;
    let cols: u32 = target.width() / ts;
    let rows: u32 = target.height() / ts;
    let nb_required_tiles: i32 = #[verifier::truncate] ((cols * rows) as i32);
    if args.remove_used && nb_required_tiles > nb_available_tiles {
        return Err(MosaicError::NotEnoughTiles { required: nb_required_tiles, available: nb_available_tiles });
    }
    Ok(nb_required_tiles)
}

/// Prepares and checks a mosaic run on the prepared target `target` with the
/// tiles that were read (`None` for a tile file that could not be decoded):
/// every tile is scaled to the tile size. When some distance is to be
/// computed (there are cells and tiles), the kernel is picked through
/// `get_optimal_l1` with the run's selection state `sel`; otherwise `sel`
/// is left alone. With `remove_used`, there must be a tile for every cell.
pub fn plan_mosaic(
    args: &Options,
    target: RgbImage,
    decoded_tiles: &Vec<Option<RgbImage>>,
    cpu: &CpuFeatures,
    sel: &mut Option<L1Kernel>,
) -> (res: Result<MosaicPlan, MosaicError>)
    requires
        args.tile_size > 0,
        tiles_resizable(decoded_tiles@, args.tile_size as int, args.tile_size as int),
        (target.w() / args.tile_size) * (target.h() / args.tile_size) <= u32::MAX,
    ensures
        ({
            let ts = args.tile_size;
            let p = target@;
            let tiles = prepared_tiles(decoded_tiles@, ts);
            let cells = has_cells(p, ts as int, ts as int);
            let kernel = selected_kernel(*old(sel), args.simd, *cpu);
            let empty = cells && tiles.len() == 0;
            let few = args.remove_used && (p.width / (ts as int)) * (p.height / (ts as int))
                > tiles.len();
            &&& empty ==> res == Err::<MosaicPlan, MosaicError>(MosaicError::NoTiles)
            &&& !empty && few ==> res == Err::<MosaicPlan, MosaicError>(
                MosaicError::NotEnoughTiles {
                    required: required_tiles(p, ts as int),
                    available: tiles.len() as i32,
                },
            )
            &&& (!cells || empty || few) ==> *final(sel) == *old(sel)
            &&& cells && !empty && !few ==> *final(sel) == Some(kernel)
            &&& cells && !empty && !few && !mosaic_runs(kernel, p, tiles, ts as int, ts as int)
                ==> res == Err::<MosaicPlan, MosaicError>(MosaicError::KernelFault)
            &&& !empty && !few && (kernel != L1Kernel::Generic ==> (ts as int) * (ts as int) <= u32::MAX)
                && (forall|t: int, cx: int, cy: int|
                #![trigger tiles[t], cell(p, ts as int, ts as int, cx, cy)]
                0 <= t < tiles.len() && 0 <= cx < p.width / (ts as int) && 0 <= cy < p.height / (ts as int)
                    ==> l1_distance(tiles[t].bytes, cell(p, ts as int, ts as int, cx, cy).bytes) <= i32::MAX) ==> res is Ok
            &&& !empty && !few && (!cells || mosaic_runs(kernel, p, tiles, ts as int, ts as int))
                ==> (res matches Ok(plan) && plan_ready(plan) && plan.target@ == p && views(
                plan.tiles@,
            ) == tiles && (cells ==> plan.kernel == kernel) && plan.tile_size.width == ts
                && plan.tile_size.height == ts && plan.distinct == args.remove_used && plan.announce
                == (cells && *old(sel) is None && announces_kernel(args.simd, *cpu)))
        }),
{
    proof {
        use_type_invariant(&target);
    }
    let ts = args.tile_size;
    let tile_size = Size { width: ts, height: ts };
    let cols: u32 = target.width() / ts;
    let rows: u32 = target.height() / ts;
    let tiles = prepare_tiles(decoded_tiles, &tile_size);
    let ghost tv = prepared_tiles(decoded_tiles@, ts);
    proof {
        assert(views(tiles@) =~= tv);
        assert forall|t: int| 0 <= t < tiles@.len() implies (#[trigger] tiles@[t]).wf() && tiles@[t].w() <= ts
            && tiles@[t].h() <= ts by {
            assert(tiles@[t]@ == prepared_tile(opt_view(decoded_tiles@[t]), ts, ts));
        }
    }
    if cols > 0 && rows > 0 && tiles.len() == 0 {
        return Err(MosaicError::NoTiles);
    }
    if args.remove_used && ((cols * rows) as usize) > tiles.len() {
        return Err(
            MosaicError::NotEnoughTiles {
                required: #[verifier::truncate] ((cols * rows) as i32),
                available: #[verifier::truncate] (tiles.len() as i32),
            },
        );
    }
    if cols == 0 || rows == 0 {
        return Ok(
            MosaicPlan {
                target,
                tiles,
                tile_size,
                kernel: L1Kernel::Generic,
                announce: false,
                distinct: args.remove_used,
            },
        );
    }
    let choice = get_optimal_l1(args.simd, cpu, sel);
    proof {
        let tsi = ts as int;
        assert forall|t: int| 0 <= t < tiles.len() && choice.kernel != L1Kernel::Generic && tsi * tsi
            <= u32::MAX implies (#[trigger] tiles@[t]).w() * tiles@[t].h() <= u32::MAX by {
            let w = tiles@[t].w() as int;
            let h = tiles@[t].h() as int;
            assert(w * h <= tsi * tsi) by (nonlinear_arith)
                requires
                    0 <= w <= tsi,
                    0 <= h <= tsi,
            ;
        }
        assert forall|t: int| 0 <= t < tiles.len() implies (#[trigger] tiles@[t]).bytes() == tv[t].bytes by {
            assert(views(tiles@)[t] == tiles@[t]@);
        }
    }
    if !check_mosaic_runs(choice.kernel, &target, &tiles, &tile_size) {
        return Err(MosaicError::KernelFault);
    }
    proof {
        assert forall|t: int| 0 <= t < tiles@.len() implies #[trigger] tiles@[t].wf() && (choice.kernel
            != L1Kernel::Generic ==> tiles@[t].w() * tiles@[t].h() <= u32::MAX) by {
            assert(tv[t] == tiles@[t]@);
        }
    }
    Ok(
        MosaicPlan {
            target,
            tiles,
            tile_size,
            kernel: choice.kernel,
            announce: choice.announce,
            distinct: args.remove_used,
        },
    )
}

/// Builds the mosaic that a plan describes: with distinct tiles, no tile
/// fills two cells; otherwise each cell takes its closest tile.
pub fn build_planned_mosaic(plan: MosaicPlan) -> (r: RgbImage)
    requires
        plan_ready(plan),
    ensures
        ({
            let tw = plan.tile_size.width as int;
            let th = plan.tile_size.height as int;
            let tv = views(plan.tiles@);
            let p = plan.target@;
            &&& !plan.distinct ==> paved(
                r@,
                p,
                tv,
                |cx: int, cy: int| chosen_tile(plan.kernel, p, tv, tw, th, cx, cy),
                tw,
                th,
            )
            &&& plan.distinct ==> paved(
                r@,
                p,
                tv,
                |cx: int, cy: int| distinct_choice(plan.kernel, p, tv, tw, th, cx, cy),
                tw,
                th,
            )
        }),
{
    proof {
        use_type_invariant(&plan.target);
    }
    if plan.distinct {
        build_distinct_mosaic(plan.target, &plan.tiles, &plan.tile_size, plan.kernel)
    } else {
        build_mosaic(plan.target, &plan.tiles, &plan.tile_size, plan.kernel)
    }
}

/// `r` is the mosaic, with `kernel`, of the prepared target `p` from the
/// prepared tiles `tiles`, none larger than a `ts` by `ts` cell: with
/// `distinct`, no tile fills two cells; otherwise each cell takes its
/// closest tile.
pub open spec fn mosaic_result(
    r: Picture,
    p: Picture,
    tiles: Seq<Picture>,
    kernel: L1Kernel,
    ts: int,
    distinct: bool,
) -> bool {
    &&& 0 <= r.width
    &&& 0 <= r.height
    &&& r.bytes.len() == 3 * r.width * r.height
    &&& forall|t: int| 0 <= t < tiles.len() ==> (#[trigger] tiles[t]).bytes.len() <= 3 * ts * ts
    &&& !distinct ==> paved(
        r,
        p,
        tiles,
        |cx: int, cy: int| chosen_tile(kernel, p, tiles, ts, ts, cx, cy),
        ts,
        ts,
    )
    &&& distinct ==> paved(
        r,
        p,
        tiles,
        |cx: int, cy: int| distinct_choice(kernel, p, tiles, ts, ts, cx, cy),
        ts,
        ts,
    )
}

/// Builds the mosaic of a target picture from the tiles that were read
/// (`None` for a tile file that could not be decoded): the target is scaled
/// and cut to whole tiles, every tile is scaled to the tile size, and each
/// cell gets the tile closest to it (with `remove_used`, the closest tile
/// not used by an earlier cell), with the kernel that `get_optimal_l1`
/// picks with the run's selection state `sel`. `nb_available_tiles` is the
/// number of entries of the tile folder.
pub fn compute_mosaic(
    args: &Options,
    target: RgbImage,
    decoded_tiles: &Vec<Option<RgbImage>>,
    nb_available_tiles: i32,
    cpu: &CpuFeatures,
    sel: &mut Option<L1Kernel>,
) -> (res: Result<RgbImage, MosaicError>)
    requires
        mosaic_inputs_ok(args, target, decoded_tiles@),
    ensures
        ({
            let ts = args.tile_size;
            let p = prepared_target(target@, args.scaling, ts, ts);
            let tiles = prepared_tiles(decoded_tiles@, ts);
            let cells = has_cells(p, ts as int, ts as int);
            let kernel = selected_kernel(*old(sel), args.simd, *cpu);
            let required = required_tiles(p, ts as int);
            let short = args.remove_used && required > nb_available_tiles;
            let empty = cells && tiles.len() == 0;
            let few = args.remove_used && (p.width / (ts as int)) * (p.height / (ts as int))
                > tiles.len();
            &&& short ==> res == Err::<RgbImage, MosaicError>(
                MosaicError::NotEnoughTiles { required, available: nb_available_tiles },
            )
            &&& !short && empty ==> res == Err::<RgbImage, MosaicError>(MosaicError::NoTiles)
            &&& !short && !empty && few ==> res == Err::<RgbImage, MosaicError>(
                MosaicError::NotEnoughTiles { required, available: tiles.len() as i32 },
            )
            &&& (short || !cells || empty || few) ==> *final(sel) == *old(sel)
            &&& !short && cells && !empty && !few ==> *final(sel) == Some(kernel)
            &&& !short && cells && !empty && !few && !mosaic_runs(kernel, p, tiles, ts as int, ts as int)
                ==> res == Err::<RgbImage, MosaicError>(MosaicError::KernelFault)
            &&& !short && !empty && !few && (kernel != L1Kernel::Generic ==> (ts as int) * (ts as int) <= u32::MAX)
                && (forall|t: int, cx: int, cy: int|
                #![trigger tiles[t], cell(p, ts as int, ts as int, cx, cy)]
                0 <= t < tiles.len() && 0 <= cx < p.width / (ts as int) && 0 <= cy < p.height / (ts as int)
                    ==> l1_distance(tiles[t].bytes, cell(p, ts as int, ts as int, cx, cy).bytes) <= i32::MAX) ==> res is Ok
            &&& !short && !empty && !few && (!cells || mosaic_runs(kernel, p, tiles, ts as int, ts as int))
                ==> (res matches Ok(r) && mosaic_result(r@, p, tiles, kernel, ts as int, args.remove_used))
        }),
{
    let ts = args.tile_size;
    let tile_size = Size { width: ts, height: ts };
    let ghost nw = target.w() * args.scaling;
    let ghost nh = target.h() * args.scaling;
    let target = prepare_target(target, args.scaling, &tile_size);
    proof {
        lemma_fundamental_div_mod(nw, ts as int);
        lemma_fundamental_div_mod_converse(nw - nw % (ts as int), ts as int, nw / (ts as int), 0);
        lemma_fundamental_div_mod(nh, ts as int);
        lemma_fundamental_div_mod_converse(nh - nh % (ts as int), ts as int, nh / (ts as int), 0);
        assert(target.w() / ts == nw / (ts as int));
        assert(target.h() / ts == nh / (ts as int));
    }
    match check_tile_supply(args, &target, nb_available_tiles) {
        Ok(_) => {},
        Err(e) => {
            return Err(e);
        },
    }
    match plan_mosaic(args, target, decoded_tiles, cpu, sel) {
        Ok(plan) => {
            let ghost tv = views(plan.tiles@);
            proof {
                assert forall|t: int| 0 <= t < tv.len() implies (#[trigger] tv[t]).bytes.len() <= 3 * (
                ts as int) * (ts as int) by {
                    let tile = plan.tiles@[t];
                    assert(tile.wf() && tile.w() <= ts && tile.h() <= ts);
                    assert(3 * tile.w() * tile.h() <= 3 * (ts as int) * (ts as int)) by (nonlinear_arith)
                        requires
                            tile.w() <= ts,
                            tile.h() <= ts,
                    ;
                }
            }
            let r = build_planned_mosaic(plan);
            proof {
                use_type_invariant(&r);
            }
            Ok(r)
        },
        Err(e) => Err(e),
    }
}

/// Two successful mosaic runs on the same target and tiles, with the same
/// tile size, scaling and `remove_used`, give the same picture, whatever
/// kernels they used (whether SIMD was asked for, and what the processor
/// offers or the run had already selected). The number of worker threads
/// is no input of the mosaic at all: runs that differ in it, or in how
/// columns were shared among threads, agree too.
pub proof fn lemma_runs_agree(
    ts: int,
    scaling: u32,
    remove_used: bool,
    target: Picture,
    decoded_tiles: Seq<Option<RgbImage>>,
    k1: L1Kernel,
    k2: L1Kernel,
    r1: Picture,
    r2: Picture,
)
    requires
        0 < ts <= u32::MAX,
        mosaic_result(
            r1,
            prepared_target(target, scaling, ts as u32, ts as u32),
            prepared_tiles(decoded_tiles, ts as u32),
            k1,
            ts,
            remove_used,
        ),
        mosaic_result(
            r2,
            prepared_target(target, scaling, ts as u32, ts as u32),
            prepared_tiles(decoded_tiles, ts as u32),
            k2,
            ts,
            remove_used,
        ),
    ensures
        r1 == r2,
{
    let p = prepared_target(target, scaling, ts as u32, ts as u32);
    let tiles = prepared_tiles(decoded_tiles, ts as u32);
    lemma_mosaic_kernel_free(r1, p, tiles, k1, ts, remove_used);
    lemma_mosaic_kernel_free(r2, p, tiles, k2, ts, remove_used);
    if remove_used {
        lemma_paved_unique(
            r1,
            r2,
            p,
            tiles,
            |cx: int, cy: int| distinct_choice(L1Kernel::Generic, p, tiles, ts, ts, cx, cy),
            ts,
            ts,
        );
    } else {
        lemma_paved_unique(
            r1,
            r2,
            p,
            tiles,
            |cx: int, cy: int| chosen_tile(L1Kernel::Generic, p, tiles, ts, ts, cx, cy),
            ts,
            ts,
        );
    }
}

/// A mosaic built with any kernel is the one built with the portable kernel.
pub proof fn lemma_mosaic_kernel_free(
    r: Picture,
    p: Picture,
    tiles: Seq<Picture>,
    kernel: L1Kernel,
    ts: int,
    distinct: bool,
)
    requires
        0 < ts,
        mosaic_result(r, p, tiles, kernel, ts, distinct),
    ensures
        mosaic_result(r, p, tiles, L1Kernel::Generic, ts, distinct),
{
    if distinct {
        let rows = p.height / ts;
        let n = ((p.width / ts) * rows) as nat;
        lemma_distinct_choices_kernel(kernel, p, tiles, ts, ts, rows, n);
        let f1 = |cx: int, cy: int| distinct_choice(kernel, p, tiles, ts, ts, cx, cy);
        let f2 = |cx: int, cy: int| distinct_choice(L1Kernel::Generic, p, tiles, ts, ts, cx, cy);
        assert(f1 =~= f2);
    } else {
        let f1 = |cx: int, cy: int| chosen_tile(kernel, p, tiles, ts, ts, cx, cy);
        let f2 = |cx: int, cy: int| chosen_tile(L1Kernel::Generic, p, tiles, ts, ts, cx, cy);
        assert forall|cx: int, cy: int| #[trigger] f1(cx, cy) == f2(cx, cy) by {
            lemma_kernel_keeps_choice(kernel, p, tiles, ts, ts, cx, cy);
        }
        assert(f1 =~= f2);
    }
}

} // verus!
