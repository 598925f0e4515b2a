//! Mosaics in which every tile fills at most one cell: the cells are
//! visited column by column, top to bottom, and each takes the first tile
//! at the least distance among the tiles not used yet.

use vstd::prelude::*;
use vstd::set_lib::{set_int_range, lemma_int_range, lemma_len_subset};
use vstd::seq_lib::seq_to_set_is_finite;
use vstd::arithmetic::div_mod::lemma_fundamental_div_mod_converse;
use crate::rgb_image::RgbImage;
use crate::rgb_image::Picture;
use crate::l1::{L1Kernel, l1, kernel_accepts};
use crate::mosaic::{
    Size, views, cell, tile_errors, tiles_usable, kernel_accepts_all, mosaic_accepts, tiles_fit,
    paved, has_cells, lemma_cell_inside, assemble_mosaic, lemma_tile_errors_agree,
};

verus! {

/// `i` is the first position of a least element of `e` among the positions
/// not in `taken`.
pub open spec fn is_first_min_in(e: Seq<int>, taken: Set<int>, i: int) -> bool {
    &&& 0 <= i < e.len()
    &&& !taken.contains(i)
    &&& forall|j: int| 0 <= j < e.len() && !taken.contains(j) ==> e[i] <= #[trigger] e[j]
    &&& forall|j: int| 0 <= j < i && !taken.contains(j) ==> e[i] < #[trigger] e[j]
}

/// The first position of a least element of `e` outside `taken`.
pub open spec fn first_min_in(e: Seq<int>, taken: Set<int>) -> int {
    choose|i: int| is_first_min_in(e, taken, i)
}

/// There is one first least element outside `taken`.
pub proof fn lemma_first_min_in_unique(e: Seq<int>, taken: Set<int>, i: int, j: int)
    requires
        is_first_min_in(e, taken, i),
        is_first_min_in(e, taken, j),
    ensures
        i == j,
{
    if i < j {
        assert(e[i] <= e[j]);
        assert(e[j] < e[i]);
    } else if j < i {
        assert(e[j] <= e[i]);
        assert(e[i] < e[j]);
    }
}

/// When some position is free, a first least element among the free ones
/// exists.
pub proof fn lemma_first_min_in_exists(e: Seq<int>, taken: Set<int>, j0: int)
    requires
        0 <= j0 < e.len(),
        !taken.contains(j0),
    ensures
        is_first_min_in(e, taken, first_min_in(e, taken)),
    decreases e.len(),
{
    let last = e.len() - 1;
    let d = e.drop_last();
    if exists|j: int| 0 <= j < last && !taken.contains(j) {
        let j1 = choose|j: int| 0 <= j < last && !taken.contains(j);
        lemma_first_min_in_exists(d, taken, j1);
        let k = first_min_in(d, taken);
        if !taken.contains(last) && e[last] < d[k] {
            assert forall|j: int| 0 <= j < e.len() && !taken.contains(j) implies e[last] <= #[trigger] e[j] by {
                if j < last {
                    assert(d[k] <= d[j]);
                }
            }
            assert forall|j: int| 0 <= j < last && !taken.contains(j) implies e[last] < #[trigger] e[j] by {
                assert(d[k] <= d[j]);
            }
            assert(is_first_min_in(e, taken, last));
        } else {
            assert forall|j: int| 0 <= j < e.len() && !taken.contains(j) implies e[k] <= #[trigger] e[j] by {
                if j < last {
                    assert(d[k] <= d[j]);
                }
            }
            assert forall|j: int| 0 <= j < k && !taken.contains(j) implies e[k] < #[trigger] e[j] by {
                assert(d[k] < d[j]);
            }
            assert(is_first_min_in(e, taken, k));
        }
    } else {
        assert(j0 == last);
        assert(is_first_min_in(e, taken, last));
    }
}

/// Fewer values than positions leave a position unused.
pub proof fn lemma_free_index_exists(s: Seq<int>, len: int)
    requires
        s.len() < len,
    ensures
        exists|j: int| 0 <= j < len && !s.contains(j),
{
    if forall|j: int| 0 <= j < len ==> s.contains(j) {
        lemma_int_range(0, len);
        seq_to_set_is_finite(s);
        assert(set_int_range(0, len).subset_of(s.to_set()));
        lemma_len_subset(set_int_range(0, len), s.to_set());
        s.lemma_cardinality_of_set();
    }
}

/// The tiles of the first `n` cells in visiting order (cell `m` is column
/// `m / rows`, row `m % rows`): each cell takes the first tile at the least
/// distance from it among the tiles that earlier cells did not take.
pub open spec fn distinct_choices(
    kernel: L1Kernel,
    target: Picture,
    tiles: Seq<Picture>,
    tw: int,
    th: int,
    rows: int,
    n: nat,
) -> Seq<int>
    decreases n,
{
    if n == 0 {
        Seq::empty()
    } else {
        let prev = distinct_choices(kernel, target, tiles, tw, th, rows, (n - 1) as nat);
        let m = n - 1;
        prev.push(
            first_min_in(
                tile_errors(kernel, tiles, cell(target, tw, th, m / rows, m % rows)),
                prev.to_set(),
            ),
        )
    }
}

/// The choices for fewer cells are a prefix of those for more cells.
pub proof fn lemma_distinct_choices_prefix(
    kernel: L1Kernel,
    target: Picture,
    tiles: Seq<Picture>,
    tw: int,
    th: int,
    rows: int,
    m: nat,
    n: nat,
)
    requires
        m <= n,
    ensures
        distinct_choices(kernel, target, tiles, tw, th, rows, n).len() == n,
        distinct_choices(kernel, target, tiles, tw, th, rows, n).subrange(0, m as int)
            == distinct_choices(kernel, target, tiles, tw, th, rows, m),
    decreases n,
{
    let s = distinct_choices(kernel, target, tiles, tw, th, rows, n);
    if n > 0 {
        lemma_distinct_choices_prefix(kernel, target, tiles, tw, th, rows, (n - 1) as nat, (n - 1) as nat);
        if m < n {
            lemma_distinct_choices_prefix(kernel, target, tiles, tw, th, rows, m, (n - 1) as nat);
            assert(s.subrange(0, m as int) =~= distinct_choices(
                kernel,
                target,
                tiles,
                tw,
                th,
                rows,
                (n - 1) as nat,
            ).subrange(0, m as int));
        } else {
            assert(s.subrange(0, m as int) =~= s);
        }
    }
}

/// With tiles no larger than a cell, every kernel makes the choices that the
/// portable kernel makes.
pub proof fn lemma_distinct_choices_kernel(
    kernel: L1Kernel,
    target: Picture,
    tiles: Seq<Picture>,
    tw: int,
    th: int,
    rows: int,
    n: nat,
)
    requires
        0 <= tw,
        0 <= th,
        forall|t: int| 0 <= t < tiles.len() ==> (#[trigger] tiles[t]).bytes.len() <= 3 * tw * th,
    ensures
        distinct_choices(kernel, target, tiles, tw, th, rows, n) == distinct_choices(
            L1Kernel::Generic,
            target,
            tiles,
            tw,
            th,
            rows,
            n,
        ),
    decreases n,
{
    if n > 0 {
        lemma_distinct_choices_kernel(kernel, target, tiles, tw, th, rows, (n - 1) as nat);
        let m = n - 1;
        let c = cell(target, tw, th, m / rows, m % rows);
        assert(0 <= 3 * tw * th) by (nonlinear_arith)
            requires
                0 <= tw,
                0 <= th,
        ;
        lemma_tile_errors_agree(kernel, tiles, c);
    }
}

/// With no more cells than tiles, every cell takes a tile and no tile fills
/// two cells.
pub proof fn lemma_distinct_choices_distinct(
    kernel: L1Kernel,
    target: Picture,
    tiles: Seq<Picture>,
    tw: int,
    th: int,
    rows: int,
    n: nat,
)
    requires
        n <= tiles.len(),
    ensures
        distinct_choices(kernel, target, tiles, tw, th, rows, n).len() == n,
        forall|i: int|
            0 <= i < n ==> 0 <= #[trigger] distinct_choices(kernel, target, tiles, tw, th, rows, n)[i]
                < tiles.len(),
        distinct_choices(kernel, target, tiles, tw, th, rows, n).no_duplicates(),
    decreases n,
{
    if n > 0 {
        let prev = distinct_choices(kernel, target, tiles, tw, th, rows, (n - 1) as nat);
        lemma_distinct_choices_distinct(kernel, target, tiles, tw, th, rows, (n - 1) as nat);
        let m = n - 1;
        let e = tile_errors(kernel, tiles, cell(target, tw, th, m / rows, m % rows));
        lemma_free_index_exists(prev, tiles.len() as int);
        let j0 = choose|j: int| 0 <= j < tiles.len() && !prev.contains(j);
        assert(!prev.to_set().contains(j0));
        lemma_first_min_in_exists(e, prev.to_set(), j0);
        let s = distinct_choices(kernel, target, tiles, tw, th, rows, n);
        assert(s == prev.push(first_min_in(e, prev.to_set())));
        assert forall|i: int, j: int| 0 <= i < s.len() && 0 <= j < s.len() && i != j implies s[i]
            != s[j] by {
            if i == m {
                assert(prev.contains(s[j]));
            } else if j == m {
                assert(prev.contains(s[i]));
            }
        }
    }
}

/// The positions marked in `used`.
pub open spec fn taken_set(used: Seq<bool>) -> Set<int> {
    Set::new(|j: int| 0 <= j < used.len() && used[j])
}

/// The index of the first tile at the least distance from `target_tile`
/// among the tiles not marked in `used`.
pub fn best_free_tile(
    tiles: &Vec<RgbImage>,
    target_tile: &RgbImage,
    kernel: L1Kernel,
    used: &Vec<bool>,
) -> (best: usize)
    requires
        tiles.len() == used.len(),
        exists|j: int| 0 <= j < used.len() && !used@[j],
        tiles_usable(kernel, tiles@),
        kernel_accepts_all(kernel, views(tiles@), target_tile@),
    ensures
        is_first_min_in(
            tile_errors(kernel, views(tiles@), target_tile@),
            taken_set(used@),
            best as int,
        ),
{
    let ghost e = tile_errors(kernel, views(tiles@), target_tile@);
    let ghost taken = taken_set(used@);
    let mut best: usize = 0;
    let mut found = false;
    let mut min_error: i32 = i32::MAX;
    let mut i: usize = 0;
    while i < tiles.len()
        invariant
            e == tile_errors(kernel, views(tiles@), target_tile@),
            taken == taken_set(used@),
            tiles.len() == used.len(),
            tiles_usable(kernel, tiles@),
            kernel_accepts_all(kernel, views(tiles@), target_tile@),
            i <= tiles.len(),
            found ==> best < i && !taken.contains(best as int) && min_error == e[best as int],
            !found ==> forall|j: int| 0 <= j < i ==> #[trigger] taken.contains(j),
            forall|j: int| 0 <= j < i && !taken.contains(j) ==> min_error <= #[trigger] e[j],
            forall|j: int| 0 <= j < best && !taken.contains(j) ==> min_error < #[trigger] e[j],
        decreases tiles.len() - i,
    {
        if !used[i] {
            assert(!taken.contains(i as int));
            assert(kernel_accepts(kernel, views(tiles@)[i as int].bytes, target_tile@.bytes));
            assert(tiles@[i as int].wf());
            let error = l1(&tiles[i], target_tile, kernel);
            assert(error == e[i as int]);
            if !found || error < min_error {
                proof {
                    if !found {
                        assert forall|j: int| 0 <= j < i && !taken.contains(j) implies error < #[trigger] e[j] by {
                            assert(taken.contains(j));
                        }
                    }
                }
                min_error = error;
                best = i;
                found = true;
            }
        } else {
            assert(taken.contains(i as int));
        }
        i = i + 1;
    }
    proof {
        if !found {
            let j = choose|j: int| 0 <= j < used.len() && !used@[j];
            assert(taken.contains(j));
        }
    }
    best
}

/// The tile that cell `(cx, cy)` of the grid over `target` takes when no
/// tile may fill two cells.
pub open spec fn distinct_choice(
    kernel: L1Kernel,
    target: Picture,
    tiles: Seq<Picture>,
    tw: int,
    th: int,
    cx: int,
    cy: int,
) -> int {
    let cols = target.width / tw;
    let rows = target.height / th;
    distinct_choices(kernel, target, tiles, tw, th, rows, (cols * rows) as nat)[cx * rows + cy]
}

/// With `remove_used`, two distinct cells never take the same tile (as long
/// as there are no more cells than tiles, which the mosaic checks first).
pub proof fn lemma_distinct_cells_distinct_tiles(
    kernel: L1Kernel,
    target: Picture,
    tiles: Seq<Picture>,
    tw: int,
    th: int,
    cx: int,
    cy: int,
    cx2: int,
    cy2: int,
)
    requires
        0 < tw,
        0 < th,
        0 <= cx < target.width / tw,
        0 <= cx2 < target.width / tw,
        0 <= cy < target.height / th,
        0 <= cy2 < target.height / th,
        cx != cx2 || cy != cy2,
        (target.width / tw) * (target.height / th) <= tiles.len(),
    ensures
        0 <= distinct_choice(kernel, target, tiles, tw, th, cx, cy) < tiles.len(),
        distinct_choice(kernel, target, tiles, tw, th, cx, cy) != distinct_choice(
            kernel,
            target,
            tiles,
            tw,
            th,
            cx2,
            cy2,
        ),
{
    let cols = target.width / tw;
    let rows = target.height / th;
    let total = (cols * rows) as nat;
    lemma_distinct_choices_distinct(kernel, target, tiles, tw, th, rows, total);
    let s = distinct_choices(kernel, target, tiles, tw, th, rows, total);
    assert(0 <= cx * rows + cy < total && 0 <= cx2 * rows + cy2 < total) by (nonlinear_arith)
        requires
            0 <= cx < cols,
            0 <= cx2 < cols,
            0 <= cy < rows,
            0 <= cy2 < rows,
            total == cols * rows,
    ;
    assert(cx * rows + cy != cx2 * rows + cy2) by (nonlinear_arith)
        requires
            0 <= cy < rows,
            0 <= cy2 < rows,
            cx != cx2 || cy != cy2,
    ;
}

/// For each whole cell, column by column, the tile it takes when no tile
/// may fill two cells. It only reads the target.
pub fn distinct_tile_choices(
    target: &RgbImage,
    tiles: &Vec<RgbImage>,
    tile_size: &Size,
    kernel: L1Kernel,
) -> (choices: Vec<Vec<usize>>)
    requires
        tile_size.width > 0,
        tile_size.height > 0,
        has_cells(target@, tile_size.width as int, tile_size.height as int) ==> tiles_usable(
            kernel,
            tiles@,
        ),
        mosaic_accepts(
            kernel,
            target@,
            views(tiles@),
            tile_size.width as int,
            tile_size.height as int,
        ),
        (target.w() / tile_size.width) * (target.h() / tile_size.height) <= tiles.len(),
    ensures
        choices.len() == target.w() / tile_size.width,
        forall|k: int| 0 <= k < choices.len() ==> (#[trigger] choices@[k]).len() == target.h() / tile_size.height,
        forall|k: int, l: int|
            0 <= k < choices.len() && 0 <= l < target.h() / tile_size.height ==> #[trigger] choices@[k]@[l]
                == distinct_choice(
                kernel,
                target@,
                views(tiles@),
                tile_size.width as int,
                tile_size.height as int,
                k,
                l,
            ),
{
    proof {
        use_type_invariant(target);
    }
    let tw = tile_size.width;
    let th = tile_size.height;
    let cols: u32 = target.width() / tw;
    let rows: u32 = target.height() / th;
    let ghost tv = views(tiles@);
    let ghost total: nat = (cols * rows) as nat;
    let mut used: Vec<bool> = Vec::new();
    let mut t: usize = 0;
    while t < tiles.len()
        invariant
            t <= tiles.len(),
            used.len() == t,
            forall|j: int| 0 <= j < t ==> !used@[j],
        decreases tiles.len() - t,
    {
        used.push(false);
        t = t + 1;
    }
    let mut choices: Vec<Vec<usize>> = Vec::new();
    let ghost mut chosen: Seq<int> = Seq::empty();
    let mut cx: u32 = 0;
    while cx < cols
        invariant
            target.wf(),
            tw == tile_size.width,
            th == tile_size.height,
            tw > 0,
            th > 0,
            cols == target.w() / tw,
            rows == target.h() / th,
            tv == views(tiles@),
            total == cols * rows,
            total <= tiles.len(),
            cols > 0 && rows > 0 ==> tiles_usable(kernel, tiles@),
            mosaic_accepts(kernel, target@, tv, tw as int, th as int),
            cx <= cols,
            choices.len() == cx,
            chosen == distinct_choices(kernel, target@, tv, tw as int, th as int, rows as int, (cx * rows) as nat),
            chosen.len() == cx * rows,
            forall|i: int| 0 <= i < chosen.len() ==> 0 <= #[trigger] chosen[i] < tiles.len(),
            used.len() == tiles.len(),
            forall|j: int| 0 <= j < used.len() ==> (used@[j] <==> chosen.contains(j)),
            forall|k: int| 0 <= k < cx ==> (#[trigger] choices@[k]).len() == rows,
            forall|k: int, l: int|
                0 <= k < cx && 0 <= l < rows ==> #[trigger] choices@[k]@[l] == chosen[k * rows + l],
        decreases cols - cx,
    {
        let mut col: Vec<usize> = Vec::new();
        let mut cy: u32 = 0;
        while cy < rows
            invariant
                target.wf(),
                tw == tile_size.width,
                th == tile_size.height,
                tw > 0,
                th > 0,
                cols == target.w() / tw,
                rows == target.h() / th,
                tv == views(tiles@),
                total == cols * rows,
                total <= tiles.len(),
                rows > 0 ==> tiles_usable(kernel, tiles@),
                mosaic_accepts(kernel, target@, tv, tw as int, th as int),
                cx < cols,
                cy <= rows,
                choices.len() == cx,
                col.len() == cy,
                chosen == distinct_choices(
                    kernel,
                    target@,
                    tv,
                    tw as int,
                    th as int,
                    rows as int,
                    (cx * rows + cy) as nat,
                ),
                chosen.len() == cx * rows + cy,
                forall|i: int| 0 <= i < chosen.len() ==> 0 <= #[trigger] chosen[i] < tiles.len(),
                used.len() == tiles.len(),
                forall|j: int| 0 <= j < used.len() ==> (used@[j] <==> chosen.contains(j)),
                forall|k: int| 0 <= k < cx ==> (#[trigger] choices@[k]).len() == rows,
                forall|k: int, l: int|
                    0 <= k < cx && 0 <= l < rows ==> #[trigger] choices@[k]@[l] == chosen[k * rows + l],
                forall|l: int| 0 <= l < cy ==> #[trigger] col@[l] == chosen[cx * rows + l],
            decreases rows - cy,
        {
            let ghost m: int = cx * rows + cy;
            proof {
                assert(m < total) by (nonlinear_arith)
                    requires
                        m == cx * rows + cy,
                        cx < cols,
                        cy < rows,
                        total == cols * rows,
                ;
                lemma_free_index_exists(chosen, tiles.len() as int);
                lemma_cell_inside(target.w() as int, tw as int, cx as int, 0);
                lemma_cell_inside(target.h() as int, th as int, cy as int, 0);
                lemma_fundamental_div_mod_converse(m, rows as int, cx as int, cy as int);
            }
            let target_tile = target.crop(cx * tw, cy * th, tw, th);
            let ghost c = cell(target@, tw as int, th as int, cx as int, cy as int);
            assert(target_tile@ == c);
            assert(kernel_accepts_all(kernel, tv, c));
            let b = best_free_tile(tiles, &target_tile, kernel, &used);
            proof {
                let e = tile_errors(kernel, tv, c);
                assert(taken_set(used@) =~= chosen.to_set());
                lemma_first_min_in_unique(e, chosen.to_set(), b as int, first_min_in(e, chosen.to_set()));
                assert(distinct_choices(kernel, target@, tv, tw as int, th as int, rows as int, (m + 1) as nat)
                    == chosen.push(b as int));
            }
            used.set(b, true);
            col.push(b);
            proof {
                let prev = chosen;
                chosen = chosen.push(b as int);
                assert forall|k: int, l: int|
                    0 <= k < cx && 0 <= l < rows implies #[trigger] choices@[k]@[l] == chosen[k * rows + l] by {
                    assert(k * rows + l < cx * rows) by (nonlinear_arith)
                        requires
                            0 <= k < cx,
                            0 <= l < rows,
                    ;
                    assert(0 <= k * rows + l) by (nonlinear_arith)
                        requires
                            0 <= k,
                            0 <= l,
                            0 <= rows,
                    ;
                    assert(prev[k * rows + l] == chosen[k * rows + l]);
                }
                assert forall|j: int| 0 <= j < used.len() implies (used@[j] <==> chosen.contains(j)) by {
                    if j == b {
                        assert(chosen[prev.len() as int] == j);
                    } else {
                        if prev.contains(j) {
                            let i = choose|i: int| 0 <= i < prev.len() && prev[i] == j;
                            assert(chosen[i] == j);
                        }
                        if chosen.contains(j) {
                            let i = choose|i: int| 0 <= i < chosen.len() && chosen[i] == j;
                            assert(i < prev.len());
                            assert(prev[i] == j);
                        }
                    }
                }
            }
            cy = cy + 1;
        }
        proof {
            assert(cx * rows + rows == (cx + 1) * rows) by (nonlinear_arith);
            assert forall|k: int, l: int|
                0 <= k < cx + 1 && 0 <= l < rows implies #[trigger] choices@.push(col)[k]@[l] == chosen[k * rows + l] by {
                if k == cx {
                    assert(col@[l] == chosen[cx * rows + l]);
                } else {
                    assert(choices@[k]@[l] == chosen[k * rows + l]);
                }
            }
        }
        choices.push(col);
        cx = cx + 1;
    }
    proof {
        assert forall|k: int, l: int|
            0 <= k < choices.len() && 0 <= l < rows implies #[trigger] choices@[k]@[l] == distinct_choice(
            kernel,
            target@,
            tv,
            tw as int,
            th as int,
            k,
            l,
        ) by {
            assert(choices@[k]@[l] == chosen[k * rows + l]);
        }
    }
    choices
}

/// The mosaic of `target` in which no tile fills two cells: the cells,
/// column by column and top to bottom, each take the first tile at the
/// least distance among those not taken yet.
pub fn build_distinct_mosaic(
    target: RgbImage,
    tiles: &Vec<RgbImage>,
    tile_size: &Size,
    kernel: L1Kernel,
) -> (r: RgbImage)
    requires
        tile_size.width > 0,
        tile_size.height > 0,
        has_cells(target@, tile_size.width as int, tile_size.height as int) ==> tiles_usable(
            kernel,
            tiles@,
        ),
        tiles_fit(tiles@, tile_size.width as int, tile_size.height as int),
        mosaic_accepts(
            kernel,
            target@,
            views(tiles@),
            tile_size.width as int,
            tile_size.height as int,
        ),
        (target.w() / tile_size.width) * (target.h() / tile_size.height) <= tiles.len(),
    ensures
        paved(
            r@,
            target@,
            views(tiles@),
            |cx: int, cy: int|
                distinct_choice(
                    kernel,
                    target@,
                    views(tiles@),
                    tile_size.width as int,
                    tile_size.height as int,
                    cx,
                    cy,
                ),
            tile_size.width as int,
            tile_size.height as int,
        ),
{
    proof {
        use_type_invariant(&target);
    }
    let tw = tile_size.width;
    let th = tile_size.height;
    let ghost tv = views(tiles@);
    let ghost cols = target.w() / tw;
    let ghost rows = target.h() / th;
    let ghost total = (cols * rows) as nat;
    let choices = distinct_tile_choices(&target, tiles, tile_size, kernel);
    proof {
        lemma_distinct_choices_distinct(kernel, target@, tv, tw as int, th as int, rows as int, total);
        assert forall|cx: int, cy: int|
            0 <= cx < choices.len() && 0 <= cy < choices@[cx].len() implies (
            #[trigger] choices@[cx]@[cy]) < tiles.len() by {
            assert(cx * rows + cy < total) by (nonlinear_arith)
                requires
                    0 <= cx < cols,
                    0 <= cy < rows,
                    total == cols * rows,
            ;
            assert(0 <= cx * rows + cy) by (nonlinear_arith)
                requires
                    0 <= cx,
                    0 <= cy,
                    0 <= rows,
            ;
        }
    }
    let mut result = target;
    assemble_mosaic(&mut result, tiles, tile_size, &choices);
    proof {
        let ch = |cx: int, cy: int| choices@[cx]@[cy] as int;
        let dc = |cx: int, cy: int| distinct_choice(kernel, target@, tv, tw as int, th as int, cx, cy);
        assert forall|cx: int, cy: int, i: int, j: int, c: int|
            0 <= cx < target@.width / (tw as int) && 0 <= cy < target@.height / (th as int) && 0 <= i
                < tw && 0 <= j < th && 0 <= c < 3 implies #[trigger] crate::mosaic::cell_sample(
            result@,
            tw as int,
            th as int,
            cx,
            cy,
            i,
            j,
            c,
        ) == if i < tv[dc(cx, cy)].width && j < tv[dc(cx, cy)].height {
            tv[dc(cx, cy)].sample(i, j, c)
        } else {
            crate::mosaic::cell_sample(target@, tw as int, th as int, cx, cy, i, j, c)
        } by {
            assert(ch(cx, cy) == dc(cx, cy));
        }
    }
    result
}

} // verus!
