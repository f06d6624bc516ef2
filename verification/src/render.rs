//! Cutting an image into square tiles of pixels.

use vstd::prelude::*;
use vstd::arithmetic::div_mod::lemma_fundamental_div_mod;
use vstd::arithmetic::div_mod::lemma_fundamental_div_mod_converse;

verus! {

/// Number of tiles of side `chunk_size` needed to span `side` pixels.
pub open spec fn tiles_along(chunk_size: int, side: int) -> int {
    if side % chunk_size == 0 {
        side / chunk_size
    } else {
        side / chunk_size + 1
    }
}

/// Number of tiles the image is cut into.
pub open spec fn tile_count(chunk_size: int, width: int, height: int) -> int {
    tiles_along(chunk_size, width) * tiles_along(chunk_size, height)
}

/// Left edge of tile `t`; tiles are numbered row by row.
pub open spec fn tile_left(chunk_size: int, width: int, t: int) -> int {
    (t % tiles_along(chunk_size, width)) * chunk_size
}

/// Top edge of tile `t`.
pub open spec fn tile_top(chunk_size: int, width: int, t: int) -> int {
    (t / tiles_along(chunk_size, width)) * chunk_size
}

/// Side of a tile that starts at `origin` on an axis `side` pixels long: the
/// full `chunk_size`, or what is left of the image.
pub open spec fn tile_extent(chunk_size: int, side: int, origin: int) -> int {
    if side - origin < chunk_size {
        side - origin
    } else {
        chunk_size
    }
}

/// Width in pixels of tile `t`.
pub open spec fn tile_width(chunk_size: int, width: int, t: int) -> int {
    tile_extent(chunk_size, width, tile_left(chunk_size, width, t))
}

/// Height in pixels of tile `t`.
pub open spec fn tile_height(chunk_size: int, width: int, height: int, t: int) -> int {
    tile_extent(chunk_size, height, tile_top(chunk_size, width, t))
}

/// The `k`-th pixel of tile `t`. Inside a tile the pixels run down each
/// column, the columns from left to right.
pub open spec fn tile_pixel(chunk_size: int, width: int, height: int, t: int, k: int) -> (int, int) {
    let h = tile_height(chunk_size, width, height, t);
    (tile_left(chunk_size, width, t) + k / h, tile_top(chunk_size, width, t) + k % h)
}

/// Whether `chunk` lists exactly the pixels of tile `t`, in order.
pub open spec fn is_tile(chunk: Seq<(u32, u32)>, chunk_size: int, width: int, height: int, t: int) -> bool {
    &&& chunk.len() == tile_width(chunk_size, width, t) * tile_height(chunk_size, width, height, t)
    &&& forall|k: int|
        0 <= k < chunk.len() ==> {
            &&& (#[trigger] chunk[k]).0 == tile_pixel(chunk_size, width, height, t, k).0
            &&& chunk[k].1 == tile_pixel(chunk_size, width, height, t, k).1
        }
}

/// Whether `chunks` is the whole tiling of a `width` by `height` image.
pub open spec fn is_tiling(chunks: Seq<Vec<(u32, u32)>>, chunk_size: int, width: int, height: int) -> bool {
    &&& chunks.len() == tile_count(chunk_size, width, height)
    &&& forall|t: int| 0 <= t < chunks.len() ==> is_tile((#[trigger] chunks[t])@, chunk_size, width, height, t)
}

/// The `i`-th tile along a side starts inside the side exactly when `i` is
/// below `tiles_along`.
pub proof fn lemma_starts_inside(side: int, chunk_size: int, i: int)
    requires
        side >= 0,
        chunk_size > 0,
        i >= 0,
    ensures
        i * chunk_size < side <==> i < tiles_along(chunk_size, side),
        i * chunk_size >= 0,
{
    lemma_fundamental_div_mod(side, chunk_size);
    let q = side / chunk_size;
    let r = side % chunk_size;
    assert(side == chunk_size * q + r);
    assert(i * chunk_size >= 0) by (nonlinear_arith)
        requires
            i >= 0,
            chunk_size > 0,
    ;
    assert(q * chunk_size == chunk_size * q) by (nonlinear_arith);
    if i < tiles_along(chunk_size, side) {
        if r == 0 {
            assert(i * chunk_size <= (q - 1) * chunk_size) by (nonlinear_arith)
                requires
                    i <= q - 1,
                    chunk_size > 0,
            ;
            assert((q - 1) * chunk_size == chunk_size * q - chunk_size) by (nonlinear_arith);
        } else {
            assert(i * chunk_size <= q * chunk_size) by (nonlinear_arith)
                requires
                    i <= q,
                    chunk_size > 0,
            ;
        }
    } else {
        if r == 0 {
            assert(i * chunk_size >= q * chunk_size) by (nonlinear_arith)
                requires
                    i >= q,
                    chunk_size > 0,
            ;
        } else {
            assert(i * chunk_size >= (q + 1) * chunk_size) by (nonlinear_arith)
                requires
                    i >= q + 1,
                    chunk_size > 0,
            ;
            assert((q + 1) * chunk_size == chunk_size * q + chunk_size) by (nonlinear_arith);
        }
    }
}

/// Below `tiles_along` many tiles, a tile's origin lies inside the image.
proof fn lemma_tile_origin_inside(chunk_size: int, side: int, i: int)
    requires
        chunk_size > 0,
        side >= 0,
        0 <= i < tiles_along(chunk_size, side),
    ensures
        0 <= i * chunk_size < side,
        0 < tile_extent(chunk_size, side, i * chunk_size) <= chunk_size,
        i * chunk_size + tile_extent(chunk_size, side, i * chunk_size) <= side,
{
    lemma_starts_inside(side, chunk_size, i);
}

/// A row-major index below `rows * across` names a row and a column.
proof fn lemma_row_major(across: int, row: int, col: int)
    requires
        0 <= col < across,
        0 <= row,
    ensures
        (row * across + col) / across == row,
        (row * across + col) % across == col,
{
    assert(row * across + col == across * row + col) by (nonlinear_arith);
    lemma_fundamental_div_mod_converse(row * across + col, across, row, col);
}

/// Computes `tiles_along`.
fn tiles_needed(chunk_size: usize, side: usize) -> (n: usize)
    requires
        chunk_size > 0,
    ensures
        n == tiles_along(chunk_size as int, side as int),
        n <= side,
{
    let q: usize = side / chunk_size;
    proof {
        lemma_fundamental_div_mod(side as int, chunk_size as int);
        assert(q * chunk_size >= q) by (nonlinear_arith)
            requires
                q >= 0,
                chunk_size >= 1,
        ;
        assert(chunk_size * q == q * chunk_size) by (nonlinear_arith);
    }
    if side % chunk_size == 0 {
        q
    } else {
        q + 1
    }
}

/// Lists the pixels of the `w` by `h` tile whose top left pixel is `(x0, y0)`.
fn tile_pixels(x0: usize, y0: usize, w: usize, h: usize) -> (chunk: Vec<(u32, u32)>)
    requires
        x0 + w <= u32::MAX + 1,
        y0 + h <= u32::MAX + 1,
    ensures
        chunk@.len() == w * h,
        forall|k: int|
            0 <= k < chunk@.len() ==> {
                &&& (#[trigger] chunk@[k]).0 == x0 + k / (h as int)
                &&& chunk@[k].1 == y0 + k % (h as int)
            },
{
    let mut chunk: Vec<(u32, u32)> = Vec::new();
    let mut i: usize = 0;
    while i < w
        invariant
            i <= w,
            x0 + w <= u32::MAX + 1,
            y0 + h <= u32::MAX + 1,
            chunk@.len() == i * h,
            forall|k: int|
                0 <= k < chunk@.len() ==> {
                    &&& (#[trigger] chunk@[k]).0 == x0 + k / (h as int)
                    &&& chunk@[k].1 == y0 + k % (h as int)
                },
        decreases w - i,
    {
        let mut j: usize = 0;
        while j < h
            invariant
                i < w,
                j <= h,
                x0 + w <= u32::MAX + 1,
                y0 + h <= u32::MAX + 1,
                chunk@.len() == i * h + j,
                forall|k: int|
                    0 <= k < chunk@.len() ==> {
                        &&& (#[trigger] chunk@[k]).0 == x0 + k / (h as int)
                        &&& chunk@[k].1 == y0 + k % (h as int)
                    },
            decreases h - j,
        {
            proof {
                lemma_row_major(h as int, i as int, j as int);
            }
            chunk.push(((x0 + i) as u32, (y0 + j) as u32));
            j += 1;
        }
        proof {
            assert((i + 1) * h == i * h + h) by (nonlinear_arith);
        }
        i += 1;
    }
    chunk
}

/// Cuts a `width` by `height` image into square tiles of side `chunk_size`
/// (the tiles on the right and bottom edges are cut off at the image border)
/// and lists the pixels of each tile. Tiles come row by row from the top left;
/// inside a tile the pixels run down each column.
pub fn get_pixel_chunks(chunk_size: usize, width: usize, height: usize) -> (chunks: Vec<Vec<(u32, u32)>>)
    requires
        chunk_size > 0,
        width <= u32::MAX + 1,
        height <= u32::MAX + 1,
    ensures
        is_tiling(chunks@, chunk_size as int, width as int, height as int),
{
    let across = tiles_needed(chunk_size, width);
    let down = tiles_needed(chunk_size, height);
    let mut chunks: Vec<Vec<(u32, u32)>> = Vec::new();
    let mut row: usize = 0;
    while row < down
        invariant
            chunk_size > 0,
            width <= u32::MAX + 1,
            height <= u32::MAX + 1,
            across == tiles_along(chunk_size as int, width as int),
            down == tiles_along(chunk_size as int, height as int),
            row <= down,
            chunks@.len() == row * across,
            forall|t: int|
                0 <= t < chunks@.len() ==> is_tile(
                    (#[trigger] chunks@[t])@,
                    chunk_size as int,
                    width as int,
                    height as int,
                    t,
                ),
        decreases down - row,
    {
        let mut col: usize = 0;
        while col < across
            invariant
                chunk_size > 0,
                width <= u32::MAX + 1,
                height <= u32::MAX + 1,
                across == tiles_along(chunk_size as int, width as int),
                down == tiles_along(chunk_size as int, height as int),
                row < down,
                col <= across,
                chunks@.len() == row * across + col,
                forall|t: int|
                    0 <= t < chunks@.len() ==> is_tile(
                        (#[trigger] chunks@[t])@,
                        chunk_size as int,
                        width as int,
                        height as int,
                        t,
                    ),
            decreases across - col,
        {
            proof {
                lemma_tile_origin_inside(chunk_size as int, width as int, col as int);
                lemma_tile_origin_inside(chunk_size as int, height as int, row as int);
                lemma_row_major(across as int, row as int, col as int);
            }
            let x0: usize = col * chunk_size;
            let y0: usize = row * chunk_size;
            let w: usize = if width - x0 < chunk_size {
                width - x0
            } else {
                chunk_size
            };
            let h: usize = if height - y0 < chunk_size {
                height - y0
            } else {
                chunk_size
            };
            let chunk = tile_pixels(x0, y0, w, h);
            chunks.push(chunk);
            col += 1;
        }
        proof {
            assert((row + 1) * across == row * across + across) by (nonlinear_arith);
        }
        row += 1;
    }
    proof {
        assert(down * across == across * down) by (nonlinear_arith);
    }
    chunks
}

/// What a tile index says of the tile: its column and row lie inside the
/// grid of tiles, and the tile is a non-empty rectangle inside the image.
pub proof fn lemma_tile_inside(chunk_size: int, width: int, height: int, t: int)
    requires
        chunk_size > 0,
        width >= 0,
        height >= 0,
        0 <= t < tile_count(chunk_size, width, height),
    ensures
        0 <= t % tiles_along(chunk_size, width) < tiles_along(chunk_size, width),
        0 <= t / tiles_along(chunk_size, width) < tiles_along(chunk_size, height),
        0 <= tile_left(chunk_size, width, t),
        0 <= tile_top(chunk_size, width, t),
        0 < tile_width(chunk_size, width, t) <= chunk_size,
        0 < tile_height(chunk_size, width, height, t) <= chunk_size,
        tile_left(chunk_size, width, t) + tile_width(chunk_size, width, t) <= width,
        tile_top(chunk_size, width, t) + tile_height(chunk_size, width, height, t) <= height,
{
    let across = tiles_along(chunk_size, width);
    let down = tiles_along(chunk_size, height);
    lemma_starts_inside(width, chunk_size, 0);
    lemma_starts_inside(height, chunk_size, 0);
    assert(across > 0 && down > 0) by (nonlinear_arith)
        requires
            0 <= t < across * down,
            across >= 0,
            down >= 0,
    ;
    lemma_fundamental_div_mod(t, across);
    let col = t % across;
    let row = t / across;
    assert(row >= 0 && row < down) by (nonlinear_arith)
        requires
            t == across * row + col,
            0 <= col < across,
            0 <= t < across * down,
    ;
    lemma_tile_origin_inside(chunk_size, width, col);
    lemma_tile_origin_inside(chunk_size, height, row);
}

/// Every pixel that a tile lists lies inside the image.
pub proof fn lemma_tile_pixels_in_image(chunk_size: int, width: int, height: int, t: int, k: int)
    requires
        chunk_size > 0,
        width >= 0,
        height >= 0,
        0 <= t < tile_count(chunk_size, width, height),
        0 <= k < tile_width(chunk_size, width, t) * tile_height(chunk_size, width, height, t),
    ensures
        0 <= tile_pixel(chunk_size, width, height, t, k).0 < width,
        0 <= tile_pixel(chunk_size, width, height, t, k).1 < height,
{
    lemma_tile_inside(chunk_size, width, height, t);
    let w = tile_width(chunk_size, width, t);
    let h = tile_height(chunk_size, width, height, t);
    lemma_fundamental_div_mod(k, h);
    let i = k / h;
    let j = k % h;
    assert(0 <= i < w) by (nonlinear_arith)
        requires
            k == h * i + j,
            0 <= j < h,
            0 <= k < w * h,
    ;
}

/// Every pixel of the image is listed exactly once: by one tile, at one
/// place in that tile. The result is that tile and that place.
pub proof fn lemma_pixel_in_one_tile(chunk_size: int, width: int, height: int, x: int, y: int) -> (at: (int, int))
    requires
        chunk_size > 0,
        0 <= x < width,
        0 <= y < height,
    ensures
        is_place(chunk_size, width, height, at.0, at.1),
        tile_pixel(chunk_size, width, height, at.0, at.1) == (x, y),
        forall|t: int, k: int|
            #[trigger] is_place(chunk_size, width, height, t, k) && tile_pixel(chunk_size, width, height, t, k) == (
                x,
                y,
            ) ==> t == at.0 && k == at.1,
{
    let across = tiles_along(chunk_size, width);
    let down = tiles_along(chunk_size, height);
    let col = x / chunk_size;
    let row = y / chunk_size;
    lemma_fundamental_div_mod(x, chunk_size);
    lemma_fundamental_div_mod(y, chunk_size);
    assert(chunk_size * col == col * chunk_size) by (nonlinear_arith);
    assert(chunk_size * row == row * chunk_size) by (nonlinear_arith);
    assert(col >= 0) by (nonlinear_arith)
        requires
            x == chunk_size * col + x % chunk_size,
            0 <= x % chunk_size < chunk_size,
            x >= 0,
    ;
    assert(row >= 0) by (nonlinear_arith)
        requires
            y == chunk_size * row + y % chunk_size,
            0 <= y % chunk_size < chunk_size,
            y >= 0,
    ;
    lemma_starts_inside(width, chunk_size, col);
    lemma_starts_inside(height, chunk_size, row);
    let t = row * across + col;
    lemma_row_major(across, row, col);
    assert(0 <= t < across * down) by (nonlinear_arith)
        requires
            t == row * across + col,
            0 <= col < across,
            0 <= row < down,
    ;
    lemma_tile_inside(chunk_size, width, height, t);
    let w = tile_width(chunk_size, width, t);
    let h = tile_height(chunk_size, width, height, t);
    let i = x - col * chunk_size;
    let j = y - row * chunk_size;
    let k = i * h + j;
    lemma_row_major(h, i, j);
    assert(0 <= k < w * h) by (nonlinear_arith)
        requires
            k == i * h + j,
            0 <= i < w,
            0 <= j < h,
    ;
    assert forall|t2: int, k2: int|
        #[trigger] is_place(chunk_size, width, height, t2, k2) && tile_pixel(chunk_size, width, height, t2, k2) == (
            x,
            y,
        ) implies t2 == t && k2 == k by {
        lemma_tile_inside(chunk_size, width, height, t2);
        let w2 = tile_width(chunk_size, width, t2);
        let h2 = tile_height(chunk_size, width, height, t2);
        let col2 = t2 % across;
        let row2 = t2 / across;
        lemma_fundamental_div_mod(k2, h2);
        let i2 = k2 / h2;
        let j2 = k2 % h2;
        assert(0 <= i2 < w2) by (nonlinear_arith)
            requires
                k2 == h2 * i2 + j2,
                0 <= j2 < h2,
                0 <= k2 < w2 * h2,
        ;
        assert(chunk_size * col2 == col2 * chunk_size) by (nonlinear_arith);
        assert(chunk_size * row2 == row2 * chunk_size) by (nonlinear_arith);
        lemma_fundamental_div_mod_converse(x, chunk_size, col2, i2);
        lemma_fundamental_div_mod_converse(y, chunk_size, row2, j2);
        lemma_fundamental_div_mod(t2, across);
        assert(across * row2 == row2 * across) by (nonlinear_arith);
        assert(t2 == t);
        assert(h2 * i2 == i2 * h2) by (nonlinear_arith);
    }
    (t, k)
}

/// The tiling is determined by its three parameters: two tilings of the same
/// image with the same tile size list the same pixels in the same order.
pub proof fn lemma_tiling_is_determined(
    a: Seq<Vec<(u32, u32)>>,
    b: Seq<Vec<(u32, u32)>>,
    chunk_size: int,
    width: int,
    height: int,
)
    requires
        is_tiling(a, chunk_size, width, height),
        is_tiling(b, chunk_size, width, height),
    ensures
        a.len() == b.len(),
        forall|t: int| 0 <= t < a.len() ==> (#[trigger] a[t])@ == b[t]@,
{
    assert forall|t: int| 0 <= t < a.len() implies (#[trigger] a[t])@ == b[t]@ by {
        let x = a[t]@;
        let y = b[t]@;
        assert(is_tile(x, chunk_size, width, height, t));
        assert(is_tile(y, chunk_size, width, height, t));
        assert forall|k: int| 0 <= k < x.len() implies x[k] == y[k] by {
            assert(x[k].0 == y[k].0 && x[k].1 == y[k].1);
        }
        assert(x =~= y);
    }
}

/// `k` is a place in tile `t` of the tiling.
pub open spec fn is_place(chunk_size: int, width: int, height: int, t: int, k: int) -> bool {
    &&& 0 <= t < tile_count(chunk_size, width, height)
    &&& 0 <= k < tile_width(chunk_size, width, t) * tile_height(chunk_size, width, height, t)
}

} // verus!
