//! Handing the tiles of an image out to workers.

use vstd::prelude::*;
use vstd::arithmetic::div_mod::lemma_fundamental_div_mod;
use crate::render::is_place;
use crate::render::lemma_pixel_in_one_tile;
use crate::render::lemma_starts_inside;
use crate::render::tile_count;
use crate::render::tile_pixel;
use crate::render::tiles_along;

verus! {

/// Side of a tile in pixels.
pub const TILE_SIZE: usize = 64;

/// Primary rays that a worker averages per pixel in one pass.
pub const SUB_SAMPLES: u32 = 2;

/// `num_cpus::get` of the crate of that name: the number of logical cores
/// that the process may use. Nothing is claimed of the number.
#[verifier::external_body]
fn hardware_threads() -> (n: usize) {
    num_cpus::get()
}

/// Number of workers to render with: one per hardware thread, and one where
/// the machine reports none.
pub fn worker_count() -> (workers: usize)
    ensures
        workers >= 1,
{
    workers_for(hardware_threads())
}

/// Number of workers for a machine that reports `threads` hardware threads.
pub fn workers_for(threads: usize) -> (workers: usize)
    ensures
        workers == (if threads == 0 {
            1
        } else {
            threads as int
        }),
{
    if threads == 0 {
        1
    } else {
        threads
    }
}

/// Number of tiles in a worker's batch: `tiles / workers`, rounded up.
pub open spec fn batch_size(tiles: int, workers: int) -> int {
    tiles_along(workers, tiles)
}

/// Number of batches that `tiles` tiles fall into.
pub open spec fn batch_count(tiles: int, workers: int) -> int {
    tiles_along(batch_size(tiles, workers), tiles)
}

/// First tile of batch `b`.
pub open spec fn batch_start(tiles: int, workers: int, b: int) -> int {
    b * batch_size(tiles, workers)
}

/// One past the last tile of batch `b`: the batch is full, or ends with the
/// last tile.
pub open spec fn batch_end(tiles: int, workers: int, b: int) -> int {
    if (b + 1) * batch_size(tiles, workers) < tiles {
        (b + 1) * batch_size(tiles, workers)
    } else {
        tiles
    }
}

/// Whether `batches` are the batches of `tiles` tiles for `workers` workers,
/// each given as the range of tile indices from `.0` up to but not including
/// `.1`.
pub open spec fn is_plan(batches: Seq<(usize, usize)>, tiles: int, workers: int) -> bool {
    &&& batches.len() == batch_count(tiles, workers)
    &&& forall|b: int|
        0 <= b < batches.len() ==> {
            &&& (#[trigger] batches[b]).0 == batch_start(tiles, workers, b)
            &&& batches[b].1 == batch_end(tiles, workers, b)
        }
}

/// Computes `batch_size`.
pub fn thread_chunk_size(tiles: usize, workers: usize) -> (size: usize)
    requires
        workers > 0,
    ensures
        size == batch_size(tiles as int, workers as int),
        tiles > 0 ==> size > 0,
{
    let q: usize = tiles / workers;
    proof {
        lemma_fundamental_div_mod(tiles as int, workers as int);
        assert(q * workers >= q) by (nonlinear_arith)
            requires
                q >= 0,
                workers >= 1,
        ;
        assert(workers * q == q * workers) by (nonlinear_arith);
        assert(q == 0 ==> workers * q == 0) by (nonlinear_arith);
    }
    if tiles % workers == 0 {
        q
    } else {
        q + 1
    }
}

/// Splits the tiles `0..tiles` into consecutive batches of
/// `thread_chunk_size(tiles, workers)` tiles, the last one holding what is
/// left.
pub fn worker_batches(tiles: usize, workers: usize) -> (batches: Vec<(usize, usize)>)
    requires
        tiles > 0,
        workers > 0,
    ensures
        is_plan(batches@, tiles as int, workers as int),
{
    let size = thread_chunk_size(tiles, workers);
    let mut batches: Vec<(usize, usize)> = Vec::new();
    let mut start: usize = 0;
    proof {
        lemma_starts_inside(tiles as int, size as int, 0);
    }
    while start < tiles
        invariant
            tiles > 0,
            workers > 0,
            size > 0,
            size == batch_size(tiles as int, workers as int),
            start <= tiles,
            start < tiles ==> start == batches@.len() * size,
            batches@.len() <= batch_count(tiles as int, workers as int),
            start < tiles ==> batches@.len() < batch_count(tiles as int, workers as int),
            start == tiles ==> batches@.len() == batch_count(tiles as int, workers as int),
            forall|b: int|
                0 <= b < batches@.len() ==> {
                    &&& (#[trigger] batches@[b]).0 == batch_start(tiles as int, workers as int, b)
                    &&& batches@[b].1 == batch_end(tiles as int, workers as int, b)
                },
        decreases tiles - start,
    {
        let ghost b = batches@.len() as int;
        proof {
            lemma_starts_inside(tiles as int, size as int, b);
            lemma_starts_inside(tiles as int, size as int, b + 1);
            assert((b + 1) * size == b * size + size) by (nonlinear_arith);
        }
        let end: usize = if tiles - start > size {
            start + size
        } else {
            tiles
        };
        batches.push((start, end));
        start = end;
    }
    batches
}

/// The batches cut the tiles into consecutive, non-empty runs: the first
/// batch starts at tile zero, each batch starts where the one before it ends,
/// the last one ends with the last tile, and none holds more than
/// `batch_size` tiles.
pub proof fn lemma_batches_partition(tiles: int, workers: int, b: int)
    requires
        tiles > 0,
        workers > 0,
        0 <= b < batch_count(tiles, workers),
    ensures
        batch_start(tiles, workers, 0) == 0,
        0 <= batch_start(tiles, workers, b) < batch_end(tiles, workers, b) <= tiles,
        batch_end(tiles, workers, b) - batch_start(tiles, workers, b) <= batch_size(tiles, workers),
        b + 1 < batch_count(tiles, workers) ==> batch_end(tiles, workers, b) == batch_start(
            tiles,
            workers,
            b + 1,
        ) && batch_end(tiles, workers, b) - batch_start(tiles, workers, b) == batch_size(tiles, workers),
        b + 1 == batch_count(tiles, workers) ==> batch_end(tiles, workers, b) == tiles,
{
    lemma_batch_size_suffices(tiles, workers);
    let size = batch_size(tiles, workers);
    lemma_starts_inside(tiles, size, b);
    lemma_starts_inside(tiles, size, b + 1);
    assert((b + 1) * size == b * size + size) by (nonlinear_arith);
    assert(0 * size == 0);
}

/// A batch apiece is enough: there are at most as many batches as workers,
/// and the workers' batches together have room for all tiles.
pub proof fn lemma_batch_size_suffices(tiles: int, workers: int)
    requires
        tiles > 0,
        workers > 0,
    ensures
        batch_size(tiles, workers) > 0,
        workers * batch_size(tiles, workers) >= tiles,
        (batch_size(tiles, workers) - 1) * workers < tiles,
        1 <= batch_count(tiles, workers) <= workers,
{
    lemma_fundamental_div_mod(tiles, workers);
    let q = tiles / workers;
    let r = tiles % workers;
    let size = batch_size(tiles, workers);
    assert(tiles == workers * q + r);
    assert(q >= 0) by (nonlinear_arith)
        requires
            tiles == workers * q + r,
            0 <= r < workers,
            tiles > 0,
    ;
    assert(q == 0 ==> workers * q == 0) by (nonlinear_arith);
    assert(workers * (q + 1) == workers * q + workers) by (nonlinear_arith);
    assert((q - 1) * workers == workers * q - workers) by (nonlinear_arith);
    assert(q * workers == workers * q) by (nonlinear_arith);
    assert(workers * size == size * workers) by (nonlinear_arith);
    lemma_starts_inside(tiles, size, workers);
    lemma_starts_inside(tiles, size, 0);
    assert(0 * size == 0);
}

/// Every tile falls into exactly one batch.
pub proof fn lemma_tile_in_one_batch(tiles: int, workers: int, t: int) -> (b: int)
    requires
        workers > 0,
        0 <= t < tiles,
    ensures
        0 <= b < batch_count(tiles, workers),
        batch_start(tiles, workers, b) <= t < batch_end(tiles, workers, b),
        forall|c: int|
            0 <= c < batch_count(tiles, workers) && #[trigger] batch_start(tiles, workers, c) <= t
                && t < batch_end(tiles, workers, c) ==> c == b,
{
    lemma_batch_size_suffices(tiles, workers);
    let size = batch_size(tiles, workers);
    let b = t / size;
    lemma_fundamental_div_mod(t, size);
    assert(t == size * b + t % size);
    assert(size * b == b * size) by (nonlinear_arith);
    assert((b + 1) * size == b * size + size) by (nonlinear_arith);
    assert(b >= 0) by (nonlinear_arith)
        requires
            t == size * b + t % size,
            0 <= t % size < size,
            t >= 0,
    ;
    lemma_starts_inside(tiles, size, b);
    assert forall|c: int|
        0 <= c < batch_count(tiles, workers) && #[trigger] batch_start(tiles, workers, c) <= t && t
            < batch_end(tiles, workers, c) implies c == b by {
        assert((c + 1) * size == c * size + size) by (nonlinear_arith);
        assert(c * size == size * c) by (nonlinear_arith);
        vstd::arithmetic::div_mod::lemma_fundamental_div_mod_converse(t, size, c, t - c * size);
    }
    b
}

/// Every pixel of the image is rendered once in a pass: it is listed by one
/// tile, and that tile falls into one batch. The result is the batch, the
/// tile and the place in the tile.
pub proof fn lemma_pixel_in_one_batch(width: int, height: int, workers: int, x: int, y: int) -> (at: (
    int,
    int,
    int,
))
    requires
        workers > 0,
        0 <= x < width,
        0 <= y < height,
    ensures
        0 <= at.0 < batch_count(image_tiles(width, height), workers),
        batch_start(image_tiles(width, height), workers, at.0) <= at.1 < batch_end(
            image_tiles(width, height),
            workers,
            at.0,
        ),
        is_place(TILE_SIZE as int, width, height, at.1, at.2),
        tile_pixel(TILE_SIZE as int, width, height, at.1, at.2) == (x, y),
        forall|b: int, t: int, k: int|
            0 <= b < batch_count(image_tiles(width, height), workers) && #[trigger] batch_start(
                image_tiles(width, height),
                workers,
                b,
            ) <= t && t < batch_end(image_tiles(width, height), workers, b) && #[trigger] is_place(
                TILE_SIZE as int,
                width,
                height,
                t,
                k,
            ) && tile_pixel(TILE_SIZE as int, width, height, t, k) == (x, y) ==> b == at.0 && t == at.1 && k
                == at.2,
{
    let tiles = image_tiles(width, height);
    let (t, k) = lemma_pixel_in_one_tile(TILE_SIZE as int, width, height, x, y);
    let b = lemma_tile_in_one_batch(tiles, workers, t);
    (b, t, k)
}

/// Number of tiles that an image is cut into.
pub open spec fn image_tiles(width: int, height: int) -> int {
    tile_count(TILE_SIZE as int, width, height)
}

} // verus!
