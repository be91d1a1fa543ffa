use vstd::prelude::*;
use vstd::arithmetic::div_mod::{
    lemma_add_mod_noop, lemma_fundamental_div_mod_converse, lemma_mul_mod_noop_general,
    lemma_small_mod,
};

verus! {

/// What a path does at a vertex.
#[derive(Debug, Clone, Copy, PartialEq, Eq, Structural)]
pub enum Bounce {
    /// The path was scattered and goes on.
    Scattered,
    /// The path left the scene, or met a surface that scatters nothing.
    Ended,
}

/// `path` is a walk that `bounce` allows: each state but the first comes from
/// the one before it by a step that was scattered, and `last` is how the
/// final step ended.
pub open spec fn is_walk<S, F: Fn(S) -> (S, Bounce)>(bounce: F, path: Seq<S>, last: Bounce) -> bool {
    &&& path.len() >= 1
    &&& forall|k: int|
        0 <= k < path.len() - 2 ==> bounce.ensures((path[k],), (#[trigger] path[k + 1], Bounce::Scattered))
    &&& path.len() >= 2 ==> bounce.ensures((path[path.len() - 2],), (path[path.len() - 1], last))
}

/// `path` is a walk of at most `depth` bounces from `start` to `end`, which
/// stops before `depth` bounces only where the path ended.
pub open spec fn walks<S, F: Fn(S) -> (S, Bounce)>(
    bounce: F,
    start: S,
    end: S,
    depth: usize,
    path: Seq<S>,
    last: Bounce,
) -> bool {
    &&& is_walk(bounce, path, last)
    &&& path.len() - 1 <= depth
    &&& path[0] == start
    &&& path[path.len() - 1] == end
    &&& (path.len() - 1 < depth ==> path.len() >= 2 && last == Bounce::Ended)
}

/// Follows a path from `start` for at most `depth` bounces: `bounce` is
/// asked for the next state until it reports that the path ended, or `depth`
/// bounces are done. The result is the last state; with no bounce allowed it
/// is `start`.
pub fn ray_color<S, F: Fn(S) -> (S, Bounce)>(start: S, depth: usize, bounce: &F) -> (r: S)
    requires
        forall|s: S| bounce.requires((s,)),
    ensures
        exists|path: Seq<S>, last: Bounce| walks(*bounce, start, r, depth, path, last),
        depth == 0 ==> r == start,
{
    let mut state: S = start;
    let ghost mut path: Seq<S> = seq![start];
    let ghost mut last: Bounce = Bounce::Scattered;
    let mut done: usize = 0;
    let mut going: bool = true;
    while going && done < depth
        invariant
            done <= depth,
            path.len() == done + 1,
            path[0] == start,
            path[path.len() - 1] == state,
            forall|s: S| bounce.requires((s,)),
            is_walk(*bounce, path, last),
            going ==> last == Bounce::Scattered,
            !going ==> path.len() >= 2 && last == Bounce::Ended,
        decreases depth - done,
    {
        let ghost before = path;
        let (next, outcome) = bounce(state);
        state = next;
        proof {
            path = path.push(state);
            last = outcome;
            assert forall|k: int| 0 <= k < path.len() - 2 implies bounce.ensures(
                (path[k],),
                (#[trigger] path[k + 1], Bounce::Scattered),
            ) by {
                assert(path[k] == before[k]);
                assert(path[k + 1] == before[k + 1]);
            }
        }
        going = match outcome {
            Bounce::Scattered => true,
            Bounce::Ended => false,
        };
        done = done + 1;
    }
    proof {
        assert(walks(*bounce, start, state, depth, path, last));
    }
    state
}

/// Whatever every bounce keeps, the whole path keeps: a property of states
/// that holds of the start, and of the state after a bounce wherever it held
/// of the state before, holds of every state of a walk, and so of its end.
pub proof fn lemma_walk_keeps<S, F: Fn(S) -> (S, Bounce)>(
    bounce: F,
    path: Seq<S>,
    last: Bounce,
    kept: spec_fn(S) -> bool,
    k: int,
)
    requires
        is_walk(bounce, path, last),
        kept(path[0]),
        forall|s: S, next: S, outcome: Bounce|
            kept(s) && #[trigger] bounce.ensures((s,), (next, outcome)) ==> kept(next),
        0 <= k < path.len(),
    ensures
        kept(path[k]),
    decreases k,
{
    if k > 0 {
        lemma_walk_keeps(bounce, path, last, kept, k - 1);
        if k < path.len() - 1 {
            assert(bounce.ensures((path[k - 1],), (path[k - 1 + 1], Bounce::Scattered)));
        } else {
            assert(bounce.ensures((path[path.len() - 2],), (path[path.len() - 1], last)));
        }
    }
}

/// The step between the seeds of neighbouring pixels.
pub const SEED_STEP: u64 = 0x9e37_79b9_7f4a_7c15;

/// The seed of the random stream of the pixel in row `row`, column `col` of
/// an image `width` wide: the pixel's number in the image, times `SEED_STEP`,
/// both in 64-bit arithmetic that wraps, combined bit by bit with `seed`.
pub open spec fn spec_pixel_seed(seed: u64, width: usize, row: usize, col: usize) -> u64 {
    let place = (row * width + col) % 0x1_0000_0000_0000_0000;
    seed ^ (((place * SEED_STEP) % 0x1_0000_0000_0000_0000) as u64)
}

/// The seed of the random stream of one pixel. It depends on the pixel and
/// on `seed` alone, not on the tile that the pixel falls in.
pub fn pixel_seed(seed: u64, width: usize, row: usize, col: usize) -> (r: u64)
    ensures
        r == spec_pixel_seed(seed, width, row, col),
{
    let rows: u64 = (row as u64).wrapping_mul(width as u64);
    let place: u64 = rows.wrapping_add(col as u64);
    proof {
        let m: int = 0x1_0000_0000_0000_0000;
        assert(rows == (row * width) % m);
        if rows + col > u64::MAX {
            lemma_fundamental_div_mod_converse(rows + col, m, 1, rows + col - m);
        } else {
            lemma_fundamental_div_mod_converse(rows + col, m, 0, rows + col);
        }
        assert(place == (rows + col) % m);
        lemma_add_mod_noop(row * width, col as int, m);
        lemma_small_mod(col as nat, m as nat);
        assert(place == (row * width + col) % m);
    }
    seed ^ place.wrapping_mul(SEED_STEP)
}

/// Multiplying by `SEED_STEP` in wrapping arithmetic loses nothing: two
/// numbers below the modulus with the same product are the same.
pub proof fn lemma_step_keeps_apart(a: int, b: int)
    requires
        0 <= a < 0x1_0000_0000_0000_0000,
        0 <= b < 0x1_0000_0000_0000_0000,
        (a * SEED_STEP) % 0x1_0000_0000_0000_0000 == (b * SEED_STEP) % 0x1_0000_0000_0000_0000,
    ensures
        a == b,
{
    let m: int = 0x1_0000_0000_0000_0000;
    let step: int = 0x9e37_79b9_7f4a_7c15;
    let back: int = 0xf1de_83e1_9937_733d;
    assert((step * back) % m == 1) by (nonlinear_arith)
        requires
            m == 0x1_0000_0000_0000_0000,
            step == 0x9e37_79b9_7f4a_7c15,
            back == 0xf1de_83e1_9937_733d,
    ;
    lemma_undo_step(a, step, back, m);
    lemma_undo_step(b, step, back, m);
}

/// Where `step * back` leaves the remainder 1, multiplying by `back` undoes
/// multiplying by `step`.
proof fn lemma_undo_step(a: int, step: int, back: int, m: int)
    requires
        0 <= a < m,
        (step * back) % m == 1,
    ensures
        (((a * step) % m) * back) % m == a,
{
    lemma_mul_mod_noop_general(a * step, back, m);
    assert((a * step) * back == a * (step * back)) by (nonlinear_arith);
    lemma_mul_mod_noop_general(a, step * back, m);
    assert(a * 1 == a);
    lemma_small_mod(a as nat, m as nat);
}

/// Different pixels of an image get different seeds, as long as the image
/// has no more pixels than there are seeds.
pub proof fn lemma_pixel_seeds_differ(
    seed: u64,
    width: usize,
    height: usize,
    row: usize,
    col: usize,
    row2: usize,
    col2: usize,
)
    requires
        width * height <= 0x1_0000_0000_0000_0000,
        row < height,
        col < width,
        row2 < height,
        col2 < width,
        row != row2 || col != col2,
    ensures
        spec_pixel_seed(seed, width, row, col) != spec_pixel_seed(seed, width, row2, col2),
{
    let m: int = 0x1_0000_0000_0000_0000;
    let a = row * width + col;
    let b = row2 * width + col2;
    crate::image::lemma_slots(
        width as nat,
        height as nat,
        row as nat,
        col as nat,
        row2 as nat,
        col2 as nat,
    );
    crate::image::lemma_slots(
        width as nat,
        height as nat,
        row2 as nat,
        col2 as nat,
        row2 as nat,
        col2 as nat,
    );
    assert(0 <= row * width) by (nonlinear_arith);
    assert(0 <= row2 * width) by (nonlinear_arith);
    lemma_small_mod(a as nat, m as nat);
    lemma_small_mod(b as nat, m as nat);
    let pa = ((a * SEED_STEP) % m) as u64;
    let pb = ((b * SEED_STEP) % m) as u64;
    if pa == pb {
        lemma_step_keeps_apart(a, b);
    }
    assert(seed ^ pa != seed ^ pb) by (bit_vector)
        requires
            pa != pb,
    ;
}

} // verus!
