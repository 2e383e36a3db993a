//! Global properties of the clustering model, stated and proved once over
//! all inputs. The distance laws live beside the distance itself in `color`.

use vstd::prelude::*;
use crate::color::Rgba;
use crate::model::centers_after;
use crate::model::cluster_of;
use crate::model::initial_centers;
use crate::model::is_nearest;
use crate::model::lemma_nearest_exists;
use crate::model::lemma_nearest_index_is;
use crate::model::mean_color;
use crate::model::nearest_index;
use crate::model::next_centers;
use crate::model::quantized;
use crate::model::sum_a;
use crate::model::sum_b;
use crate::model::sum_g;
use crate::model::sum_r;
use crate::rng::lcg_nth;

verus! {

/// The quantized output keeps the input's length and order, and every output
/// sample is one of the centers: the image is restricted to the palette.
pub proof fn lemma_output_in_centers(samples: Seq<Rgba>, centers: Seq<Rgba>)
    requires
        centers.len() > 0,
    ensures
        quantized(samples, centers).len() == samples.len(),
        forall|i: int|
            0 <= i < samples.len() ==> centers.contains(
                #[trigger] quantized(samples, centers)[i],
            ),
{
    assert forall|i: int| 0 <= i < samples.len() implies centers.contains(
        #[trigger] quantized(samples, centers)[i],
    ) by {
        lemma_nearest_exists(centers, samples[i]);
        let n = nearest_index(centers, samples[i]);
        assert(is_nearest(centers, samples[i], n));
        assert(quantized(samples, centers)[i] == centers[n]);
    }
}

/// The mean of a single-sample cluster is that sample, unchanged.
pub proof fn lemma_mean_singleton(p: Rgba)
    ensures
        mean_color(seq![p]) == p,
{
    let s = seq![p];
    let e = Seq::<Rgba>::empty();
    assert(s.drop_last() =~= e);
    assert(sum_r(e) == 0 && sum_g(e) == 0 && sum_b(e) == 0 && sum_a(e) == 0);
    assert(s.last() == p);
    assert(sum_r(s) == p.r as int);
    assert(sum_g(s) == p.g as int);
    assert(sum_b(s) == p.b as int);
    assert(sum_a(s) == p.a as int);
}

/// The mean of a two-sample cluster is the per-channel floor average.
pub proof fn lemma_mean_pair(p: Rgba, q: Rgba)
    ensures
        mean_color(seq![p, q]).r == ((p.r + q.r) / 2) as u8,
        mean_color(seq![p, q]).g == ((p.g + q.g) / 2) as u8,
        mean_color(seq![p, q]).b == ((p.b + q.b) / 2) as u8,
        mean_color(seq![p, q]).a == ((p.a + q.a) / 2) as u8,
{
    let s = seq![p, q];
    lemma_mean_singleton(p);
    assert(s.drop_last() =~= seq![p]);
    assert(s.last() == q);
    assert(sum_r(seq![p]) == p.r as int && sum_g(seq![p]) == p.g as int && sum_b(seq![p])
        == p.b as int && sum_a(seq![p]) == p.a as int) by {
        let e = Seq::<Rgba>::empty();
        assert(seq![p].drop_last() =~= e);
        assert(sum_r(e) == 0 && sum_g(e) == 0 && sum_b(e) == 0 && sum_a(e) == 0);
    }
    assert(sum_r(s) == p.r + q.r);
    assert(sum_g(s) == p.g + q.g);
    assert(sum_b(s) == p.b + q.b);
    assert(sum_a(s) == p.a + q.a);
}

/// With a single center every sample is assigned to it, in input order.
proof fn lemma_single_center_cluster(samples: Seq<Rgba>, centers: Seq<Rgba>)
    requires
        centers.len() == 1,
    ensures
        cluster_of(samples, centers, 0) == samples,
    decreases samples.len(),
{
    if samples.len() == 0 {
        assert(cluster_of(samples, centers, 0) =~= samples);
    } else {
        lemma_single_center_cluster(samples.drop_last(), centers);
        assert(is_nearest(centers, samples.last(), 0));
        lemma_nearest_index_is(centers, samples.last(), 0);
        assert(cluster_of(samples, centers, 0) == samples.drop_last().push(samples.last()));
        assert(samples.drop_last().push(samples.last()) =~= samples);
    }
}

/// One update pass with a single center lands on the global mean.
proof fn lemma_next_centers_single(samples: Seq<Rgba>, centers: Seq<Rgba>)
    requires
        samples.len() > 0,
        centers.len() == 1,
    ensures
        next_centers(samples, centers) == seq![mean_color(samples)],
{
    lemma_single_center_cluster(samples, centers);
    assert(next_centers(samples, centers)[0] == mean_color(samples));
    assert(next_centers(samples, centers) =~= seq![mean_color(samples)]);
}

/// With palette size one, the first update pass already collapses the
/// center to the global mean color, the center never moves again, and every
/// sample quantizes to that mean.
pub proof fn lemma_single_center_collapses(samples: Seq<Rgba>, centers0: Seq<Rgba>, iters: nat)
    requires
        samples.len() > 0,
        centers0.len() == 1,
        iters >= 1,
    ensures
        centers_after(samples, centers0, iters) == seq![mean_color(samples)],
        forall|i: int|
            0 <= i < samples.len() ==> #[trigger] quantized(
                samples,
                centers_after(samples, centers0, iters),
            )[i] == mean_color(samples),
    decreases iters,
{
    if iters == 1 {
        assert(centers_after(samples, centers0, 1) == next_centers(
            samples,
            centers_after(samples, centers0, 0),
        ));
        lemma_next_centers_single(samples, centers0);
    } else {
        lemma_single_center_collapses(samples, centers0, (iters - 1) as nat);
        lemma_next_centers_single(samples, seq![mean_color(samples)]);
    }
    let cs = centers_after(samples, centers0, iters);
    assert forall|i: int| 0 <= i < samples.len() implies #[trigger] quantized(samples, cs)[i]
        == mean_color(samples) by {
        assert(is_nearest(cs, samples[i], 0));
        lemma_nearest_index_is(cs, samples[i], 0);
    }
}

/// Initial center selection is reproducible: the generator stream and the
/// selected centers are pure functions of the seed.
pub proof fn lemma_selection_reproducible(samples: Seq<Rgba>, k: nat, seed1: u64, seed2: u64)
    requires
        seed1 == seed2,
    ensures
        lcg_nth(seed1, k) == lcg_nth(seed2, k),
        initial_centers(samples, k, seed1) == initial_centers(samples, k, seed2),
{
}

} // verus!
