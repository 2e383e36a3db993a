//! Executable k-means color quantization, verified against the model.

use vstd::prelude::*;
use crate::color::Rgba;
use crate::color::distance;
use crate::color::spec_distance;
use crate::model::cluster_of;
use crate::model::centers_after;
use crate::model::initial_centers;
use crate::model::is_nearest;
use crate::model::lemma_nearest_index_is;
use crate::model::mean_color;
use crate::model::nearest_index;
use crate::model::next_centers;
use crate::model::quantized;
use crate::model::sum_a;
use crate::model::sum_b;
use crate::model::sum_g;
use crate::model::sum_r;
use crate::rng::Rng;
use crate::rng::lcg_nth;

verus! {

/// Largest accepted number of samples: channel sums of any cluster then fit
/// in 64 bits (255 * 2^56 < 2^64).
pub open spec fn max_samples() -> int {
    0x0100_0000_0000_0000
}

/// A structural precondition violation, reported before any clustering work.
#[derive(Clone, Copy, PartialEq, Eq, Structural, Debug)]
pub enum QuantizeError {
    /// Zero samples were supplied.
    EmptyInput,
    /// The palette size is zero or exceeds the number of samples.
    InvalidPaletteSize,
}

/// Index of the center nearest to `pixel`; ties go to the lowest index.
pub fn select_closest_center(centers: &Vec<Rgba>, pixel: &Rgba) -> (i: usize)
    requires
        centers@.len() > 0,
    ensures
        is_nearest(centers@, *pixel, i as int),
{
    let mut best: usize = 0;
    let mut best_d: usize = distance(pixel, &centers[0]);
    let mut j: usize = 1;
    while j < centers.len()
        invariant
            1 <= j <= centers@.len(),
            0 <= best < j,
            best_d as nat == spec_distance(*pixel, centers@[best as int]),
            forall|l: int|
                0 <= l < j ==> best_d as nat <= #[trigger] spec_distance(*pixel, centers@[l]),
            forall|l: int|
                0 <= l < best ==> #[trigger] spec_distance(*pixel, centers@[l]) > best_d as nat,
        decreases centers@.len() - j,
    {
        let d = distance(pixel, &centers[j]);
        if d < best_d {
            best = j;
            best_d = d;
        }
        j = j + 1;
    }
    best
}

/// Per-channel floor mean of a nonempty cluster, alpha included.
pub fn cluster_mean(cluster: &Vec<Rgba>) -> (m: Rgba)
    requires
        cluster@.len() > 0,
        cluster@.len() <= max_samples(),
    ensures
        m == mean_color(cluster@),
{
    let mut sr: u64 = 0;
    let mut sg: u64 = 0;
    let mut sb: u64 = 0;
    let mut sa: u64 = 0;
    let mut i: usize = 0;
    while i < cluster.len()
        invariant
            0 <= i <= cluster@.len(),
            cluster@.len() <= max_samples(),
            sr == sum_r(cluster@.take(i as int)),
            sg == sum_g(cluster@.take(i as int)),
            sb == sum_b(cluster@.take(i as int)),
            sa == sum_a(cluster@.take(i as int)),
            sr <= 255 * i,
            sg <= 255 * i,
            sb <= 255 * i,
            sa <= 255 * i,
        decreases cluster@.len() - i,
    {
        let p = cluster[i];
        proof {
            assert(cluster@.take(i + 1).drop_last() =~= cluster@.take(i as int));
            assert(cluster@.take(i + 1).last() == cluster@[i as int]);
        }
        sr = sr + p.r as u64;
        sg = sg + p.g as u64;
        sb = sb + p.b as u64;
        sa = sa + p.a as u64;
        i = i + 1;
    }
    proof {
        assert(cluster@.take(cluster@.len() as int) =~= cluster@);
    }
    let n = cluster.len() as u64;
    proof {
        vstd::arithmetic::div_mod::lemma_div_is_ordered(sr as int, 255 * (n as int), n as int);
        vstd::arithmetic::div_mod::lemma_div_is_ordered(sg as int, 255 * (n as int), n as int);
        vstd::arithmetic::div_mod::lemma_div_is_ordered(sb as int, 255 * (n as int), n as int);
        vstd::arithmetic::div_mod::lemma_div_is_ordered(sa as int, 255 * (n as int), n as int);
        vstd::arithmetic::div_mod::lemma_div_by_multiple(255, n as int);
    }
    Rgba {
        r: (sr / n) as u8,
        g: (sg / n) as u8,
        b: (sb / n) as u8,
        a: (sa / n) as u8,
    }
}

/// Draws `k` initial centers from the generator: each slot copies the sample
/// at index `next() mod len`, drawing with replacement.
pub fn select_centers(pixels: &Vec<Rgba>, k: usize, rng: &mut Rng) -> (centers: Vec<Rgba>)
    requires
        pixels@.len() > 0,
    ensures
        centers@ == initial_centers(pixels@, k as nat, old(rng)@),
        centers@.len() == k,
        final(rng)@ == lcg_nth(old(rng)@, k as nat),
{
    let ghost seed0 = rng@;
    let mut centers: Vec<Rgba> = Vec::new();
    let mut j: usize = 0;
    while j < k
        invariant
            0 <= j <= k,
            pixels@.len() > 0,
            rng@ == lcg_nth(seed0, j as nat),
            centers@.len() == j,
            forall|i: int|
                0 <= i < j ==> centers@[i] == pixels@[lcg_nth(seed0, (i + 1) as nat) as int
                    % pixels@.len() as int],
        decreases k - j,
    {
        let v = rng.next();
        proof {
            assert(lcg_nth(seed0, (j + 1) as nat) == crate::rng::lcg_next(lcg_nth(seed0, j as nat)));
        }
        let idx = (v % (pixels.len() as u64)) as usize;
        let p = pixels[idx];
        centers.push(p);
        j = j + 1;
    }
    proof {
        assert(centers@ =~= initial_centers(pixels@, k as nat, seed0));
    }
    centers
}

/// Collects, in traversal order, the samples whose nearest center is `c`.
fn collect_cluster(pixels: &Vec<Rgba>, centers: &Vec<Rgba>, c: usize) -> (cl: Vec<Rgba>)
    requires
        centers@.len() > 0,
    ensures
        cl@ == cluster_of(pixels@, centers@, c as int),
        cl@.len() <= pixels@.len(),
{
    let mut cl: Vec<Rgba> = Vec::new();
    let mut i: usize = 0;
    while i < pixels.len()
        invariant
            centers@.len() > 0,
            0 <= i <= pixels@.len(),
            cl@ == cluster_of(pixels@.take(i as int), centers@, c as int),
            cl@.len() <= i,
        decreases pixels@.len() - i,
    {
        let cc = select_closest_center(centers, &pixels[i]);
        proof {
            lemma_nearest_index_is(centers@, pixels@[i as int], cc as int);
            assert(pixels@.take(i + 1).drop_last() =~= pixels@.take(i as int));
            assert(pixels@.take(i + 1).last() == pixels@[i as int]);
        }
        if cc == c {
            cl.push(pixels[i]);
        }
        i = i + 1;
    }
    proof {
        assert(pixels@.take(pixels@.len() as int) =~= pixels@);
    }
    cl
}

/// One update pass over the whole center set.
fn update_centers(pixels: &Vec<Rgba>, centers: &Vec<Rgba>) -> (r: Vec<Rgba>)
    requires
        pixels@.len() > 0,
        pixels@.len() <= max_samples(),
        centers@.len() > 0,
    ensures
        r@ == next_centers(pixels@, centers@),
        r@.len() == centers@.len(),
{
    let k = centers.len();
    let mut new_centers: Vec<Rgba> = Vec::new();
    let mut c: usize = 0;
    while c < k
        invariant
            0 <= c <= k,
            k == centers@.len(),
            centers@.len() > 0,
            pixels@.len() > 0,
            pixels@.len() <= max_samples(),
            new_centers@.len() == c,
            forall|l: int|
                0 <= l < c ==> new_centers@[l] == #[trigger] next_centers(pixels@, centers@)[l],
        decreases k - c,
    {
        let cl = collect_cluster(pixels, centers, c);
        let m = if cl.len() == 0 {
            centers[c]
        } else {
            cluster_mean(&cl)
        };
        new_centers.push(m);
        c = c + 1;
    }
    proof {
        assert(new_centers@ =~= next_centers(pixels@, centers@));
    }
    new_centers
}

/// Quantizes `pixels` to at most `k` colors: seeds `k` initial centers from
/// the generator, runs exactly `max_iterations` assignment/update passes
/// (a center with an empty cluster keeps its position), then replaces every
/// sample by its final nearest center. The output has the input's length and
/// order. Fails fast on zero samples or an unusable palette size.
pub fn reduce_colors(pixels: &Vec<Rgba>, k: usize, max_iterations: usize, rng: &mut Rng) -> (out:
    Result<Vec<Rgba>, QuantizeError>)
    requires
        pixels@.len() <= max_samples(),
    ensures
        pixels@.len() == 0 ==> out == Err::<Vec<Rgba>, QuantizeError>(QuantizeError::EmptyInput),
        pixels@.len() > 0 && (k == 0 || k > pixels@.len()) ==> out == Err::<
            Vec<Rgba>,
            QuantizeError,
        >(QuantizeError::InvalidPaletteSize),
        pixels@.len() > 0 && 0 < k <= pixels@.len() ==> {
            &&& out is Ok
            &&& out->Ok_0@ == quantized(
                pixels@,
                centers_after(
                    pixels@,
                    initial_centers(pixels@, k as nat, old(rng)@),
                    max_iterations as nat,
                ),
            )
            &&& final(rng)@ == lcg_nth(old(rng)@, k as nat)
        },
        out is Ok ==> out->Ok_0@.len() == pixels@.len(),
{
    if pixels.len() == 0 {
        return Err(QuantizeError::EmptyInput);
    }
    if k == 0 || k > pixels.len() {
        return Err(QuantizeError::InvalidPaletteSize);
    }
    let ghost init = initial_centers(pixels@, k as nat, rng@);
    let mut centers = select_centers(pixels, k, rng);
    let mut iter: usize = 0;
    while iter < max_iterations
        invariant
            pixels@.len() > 0,
            pixels@.len() <= max_samples(),
            0 < k <= pixels@.len(),
            0 <= iter <= max_iterations,
            centers@.len() == k,
            centers@ == centers_after(pixels@, init, iter as nat),
        decreases max_iterations - iter,
    {
        let new_centers = update_centers(pixels, &centers);
        proof {
            assert(centers_after(pixels@, init, (iter + 1) as nat) == next_centers(
                pixels@,
                centers_after(pixels@, init, iter as nat),
            ));
        }
        centers = new_centers;
        iter = iter + 1;
    }
    let mut reduced: Vec<Rgba> = Vec::new();
    let mut i: usize = 0;
    while i < pixels.len()
        invariant
            centers@.len() == k,
            0 < k,
            0 <= i <= pixels@.len(),
            reduced@.len() == i,
            forall|l: int|
                0 <= l < i ==> reduced@[l] == centers@[#[trigger] nearest_index(
                    centers@,
                    pixels@[l],
                )],
        decreases pixels@.len() - i,
    {
        let cc = select_closest_center(&centers, &pixels[i]);
        proof {
            lemma_nearest_index_is(centers@, pixels@[i as int], cc as int);
        }
        reduced.push(centers[cc]);
        i = i + 1;
    }
    proof {
        assert(reduced@ =~= quantized(pixels@, centers@));
    }
    Ok(reduced)
}

} // verus!
