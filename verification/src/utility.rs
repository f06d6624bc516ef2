//! Random draws in whole numbers.

use vstd::prelude::*;
use rand::Rng;

verus! {

/// Number of values a single draw can take.
pub const ROLLS: u32 = 100;

/// Draws from the calling thread's generator: `rand::Rng::gen_range` over
/// `0..bound` on `rand::thread_rng()`. The range must not be empty, or the
/// generator panics. The contract claims only that the draw lies in the range
/// that was asked for.
#[verifier::external_body]
fn draw_below(bound: u32) -> (roll: u32)
    requires
        bound > 0,
    ensures
        roll < bound,
{
    rand::thread_rng().gen_range(0..bound)
}

/// The whole number that the draw `roll` selects from `min..=max`: the draw,
/// taken as a fraction `roll / 100` of the range's size, rounded down.
pub open spec fn scaled(min: int, max: int, roll: int) -> int {
    min + ((max + 1 - min) * roll) / 100
}

/// Maps a draw onto the whole numbers `min..=max`.
pub fn int_from_roll(min: i32, max: i32, roll: u32) -> (n: i32)
    requires
        0 <= min <= max,
        roll < ROLLS,
    ensures
        n == scaled(min as int, max as int, roll as int),
        min <= n <= max,
{
    let size: i64 = max as i64 + 1 - min as i64;
    proof {
        assert(0 <= size * roll <= size * 99) by (nonlinear_arith)
            requires
                size >= 1,
                0 <= roll <= 99,
        ;
    }
    let part: i64 = size * (roll as i64);
    let offset: i64 = part / 100;
    (min as i64 + offset) as i32
}

/// A random whole number from `min..=max`. Each of the hundred possible draws
/// selects its number as `scaled` says, so a range of more than a hundred
/// numbers is not covered.
pub fn random_int(min: i32, max: i32) -> (n: i32)
    requires
        0 <= min <= max,
    ensures
        min <= n <= max,
        exists|roll: int| 0 <= roll < ROLLS && n == #[trigger] scaled(min as int, max as int, roll),
{
    let roll = draw_below(ROLLS);
    int_from_roll(min, max, roll)
}

/// Every number of a range of at most a hundred numbers is selected by some
/// draw.
pub proof fn lemma_every_number_is_drawn(min: int, max: int, n: int)
    requires
        min <= n <= max,
        max - min < 100,
    ensures
        exists|roll: int| 0 <= roll < 100 && n == #[trigger] scaled(min, max, roll),
{
    let size = max + 1 - min;
    let k = n - min;
    // the first draw whose scaled value reaches k
    let roll = if (100 * k) % size == 0 {
        (100 * k) / size
    } else {
        (100 * k) / size + 1
    };
    vstd::arithmetic::div_mod::lemma_fundamental_div_mod(100 * k, size);
    let q = (100 * k) / size;
    let r = (100 * k) % size;
    assert(100 * k == size * q + r);
    assert(0 <= r < size);
    assert(q >= 0) by (nonlinear_arith)
        requires
            100 * k == size * q + r,
            0 <= r < size,
            k >= 0,
            size >= 1,
    ;
    assert(roll < 100) by (nonlinear_arith)
        requires
            100 * k == size * q + r,
            0 <= r < size,
            0 <= k < size,
            1 <= size <= 100,
            roll == (if r == 0 {
                q
            } else {
                q + 1
            }),
    ;
    assert(100 * k <= size * roll < 100 * k + 100) by (nonlinear_arith)
        requires
            100 * k == size * q + r,
            0 <= r < size,
            size <= 100,
            roll == (if r == 0 {
                q
            } else {
                q + 1
            }),
    ;
    vstd::arithmetic::div_mod::lemma_fundamental_div_mod_converse(size * roll, 100, k, size * roll - 100 * k);
    assert(scaled(min, max, roll) == n);
}

} // verus!
