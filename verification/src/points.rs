//! Collision-free placement of cities on an integer grid: each city gets a
//! coordinate drawn at random inside the bounds, resampled until it differs
//! from every coordinate accepted so far.

use vstd::prelude::*;

verus! {

/// How many draws a single city may take before placement gives up.
pub const RETRIES: u32 = 1000000;

#[verifier::external_type_specification]
#[verifier::external_body]
pub struct ExThreadRng(rand::rngs::ThreadRng);

/// Relies on rand's Rng::gen_range: a sample from `0..bound` lies below
/// `bound`; the range must be non-empty or the call panics.
#[verifier::external_body]
fn sample_below(rng: &mut rand::rngs::ThreadRng, bound: u32) -> (r: u32)
    requires
        bound > 0,
    ensures
        r < bound,
{
    rand::Rng::gen_range(rng, 0..bound)
}

/// Whether the coordinate `p` already occurs among the accepted ones.
fn contains_point(v: &Vec<(u32, u32)>, p: (u32, u32)) -> (r: bool)
    ensures
        r == v@.contains(p),
{
    let mut k: usize = 0;
    while k < v.len()
        invariant
            k <= v@.len(),
            forall|t: int| 0 <= t < k ==> v@[t] != p,
        decreases v@.len() - k,
    {
        if v[k].0 == p.0 && v[k].1 == p.1 {
            proof {
                assert(v@[k as int] == p);
            }
            return true;
        }
        k = k + 1;
    }
    proof {
        assert(!v@.contains(p));
    }
    false
}

/// Draws coordinates inside the bounds until one misses every accepted
/// coordinate, giving up after a fixed number of rejected draws. With
/// nothing accepted yet the very first draw is fresh, so the budget
/// cannot run out.
#[verifier::loop_isolation(false)]
fn sample_fresh(existing: &Vec<(u32, u32)>, width: u32, height: u32, rng: &mut rand::rngs::ThreadRng) -> (r:
    Option<(u32, u32)>)
    requires
        width > 0,
        height > 0,
    ensures
        r matches Some(p) ==> p.0 < width && p.1 < height && !existing@.contains(p),
        existing@.len() == 0 ==> r is Some,
{
    let mut t: u32 = 0;
    while t < RETRIES
        invariant
            existing@.len() > 0 || t == 0,
        decreases RETRIES - t,
    {
        let x = sample_below(rng, width);
        let y = sample_below(rng, height);
        if !contains_point(existing, (x, y)) {
            return Some((x, y));
        }
        proof {
            let w = choose|w: int| 0 <= w < existing@.len() && existing@[w] == (x, y);
            assert(existing@.len() > 0);
        }
        t = t + 1;
    }
    None
}

/// Places `n` cities at pairwise-distinct coordinates inside the
/// `width` x `height` grid, drawing each coordinate uniformly and
/// resampling on collision. City `i`'s coordinate is the `i`-th entry.
///
/// The caller must leave room for `n` distinct points: with fewer grid
/// cells than cities no collision-free placement exists. Because the
/// draws are random, placement can exhaust its retry budget even then;
/// that outcome is reported as `None`, never as a malformed point set.
/// Placement that needs no draw at all (no city) or only a first,
/// necessarily fresh draw (one city) always succeeds.
#[verifier::loop_isolation(false)]
pub fn generate_points(n: u16, width: u32, height: u32, rng: &mut rand::rngs::ThreadRng) -> (r:
    Option<Vec<(u32, u32)>>)
    requires
        n > 0 ==> width > 0 && height > 0,
        n as int <= width as int * height as int,
    ensures
        r matches Some(v) ==> v@.len() == n as int && (forall|i: int|
            0 <= i < n as int ==> (#[trigger] v@[i]).0 < width && v@[i].1 < height) && (forall|
            i: int,
            j: int,
        |
            0 <= i < n as int && 0 <= j < n as int && i != j ==> v@[i] != v@[j]),
        n <= 1 ==> r is Some,
{
    let mut out: Vec<(u32, u32)> = Vec::new();
    let mut i: u16 = 0;
    while i < n
        invariant
            out@.len() == i as int,
            i <= n,
            forall|a: int| 0 <= a < i as int ==> (#[trigger] out@[a]).0 < width && out@[a].1
                < height,
            forall|a: int, b: int|
                0 <= a < i as int && 0 <= b < i as int && a != b ==> out@[a] != out@[b],
        decreases n as int - i as int,
    {
        match sample_fresh(&out, width, height, rng) {
            Some(p) => {
                proof {
                    assert(forall|a: int| 0 <= a < i as int ==> out@[a] != p);
                }
                out.push(p);
            },
            None => {
                return None;
            },
        }
        i = i + 1;
    }
    Some(out)
}

} // verus!
