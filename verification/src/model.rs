//! Mathematical model of the clustering algorithm.
//!
//! Every executable function of the library is specified against these spec
//! functions: nearest-center selection with its first-minimum tie-break,
//! per-cluster partitioning in traversal order, per-channel floor means,
//! the iterated center update, and the final quantization pass.

use vstd::prelude::*;
use crate::color::Rgba;
use crate::color::spec_distance;
use crate::rng::lcg_nth;

verus! {

/// Sum of the red channel over a sequence of colors.
pub open spec fn sum_r(s: Seq<Rgba>) -> int
    decreases s.len(),
{
    if s.len() == 0 {
        0
    } else {
        sum_r(s.drop_last()) + s.last().r
    }
}

/// Sum of the green channel over a sequence of colors.
pub open spec fn sum_g(s: Seq<Rgba>) -> int
    decreases s.len(),
{
    if s.len() == 0 {
        0
    } else {
        sum_g(s.drop_last()) + s.last().g
    }
}

/// Sum of the blue channel over a sequence of colors.
pub open spec fn sum_b(s: Seq<Rgba>) -> int
    decreases s.len(),
{
    if s.len() == 0 {
        0
    } else {
        sum_b(s.drop_last()) + s.last().b
    }
}

/// Sum of the alpha channel over a sequence of colors.
pub open spec fn sum_a(s: Seq<Rgba>) -> int
    decreases s.len(),
{
    if s.len() == 0 {
        0
    } else {
        sum_a(s.drop_last()) + s.last().a
    }
}

/// Per-channel floor mean of a nonempty cluster. All four channels take part
/// in the mean, the alpha channel included.
pub open spec fn mean_color(cluster: Seq<Rgba>) -> Rgba {
    Rgba {
        r: ((sum_r(cluster) / cluster.len() as int) as u8),
        g: ((sum_g(cluster) / cluster.len() as int) as u8),
        b: ((sum_b(cluster) / cluster.len() as int) as u8),
        a: ((sum_a(cluster) / cluster.len() as int) as u8),
    }
}

/// `i` is the index of the nearest center to `p`, ties broken toward the
/// lowest index: no center is strictly closer, and every earlier center is
/// strictly farther.
pub open spec fn is_nearest(centers: Seq<Rgba>, p: Rgba, i: int) -> bool {
    &&& 0 <= i < centers.len()
    &&& forall|j: int|
        0 <= j < centers.len() ==> spec_distance(p, centers[i]) <= #[trigger] spec_distance(
            p,
            centers[j],
        )
    &&& forall|j: int|
        0 <= j < i ==> #[trigger] spec_distance(p, centers[j]) > spec_distance(p, centers[i])
}

/// The index of the nearest center to `p` (first minimum in center order).
pub open spec fn nearest_index(centers: Seq<Rgba>, p: Rgba) -> int {
    choose|i: int| is_nearest(centers, p, i)
}

/// A nonempty center set always has a first-minimum index.
pub proof fn lemma_nearest_exists(centers: Seq<Rgba>, p: Rgba)
    requires
        centers.len() > 0,
    ensures
        exists|i: int| is_nearest(centers, p, i),
    decreases centers.len(),
{
    if centers.len() == 1 {
        assert(is_nearest(centers, p, 0));
    } else {
        let sub = centers.drop_last();
        lemma_nearest_exists(sub, p);
        let i = choose|i: int| is_nearest(sub, p, i);
        let last = centers.len() - 1;
        if spec_distance(p, centers[last]) < spec_distance(p, centers[i]) {
            assert forall|j: int| 0 <= j < last implies #[trigger] spec_distance(p, centers[j])
                > spec_distance(p, centers[last]) by {
                assert(centers[j] == sub[j]);
                assert(spec_distance(p, sub[j]) >= spec_distance(p, sub[i]));
            }
            assert(is_nearest(centers, p, last));
        } else {
            assert forall|j: int| 0 <= j < centers.len() implies spec_distance(p, centers[i])
                <= #[trigger] spec_distance(p, centers[j]) by {
                if j < last {
                    assert(centers[j] == sub[j]);
                }
            }
            assert forall|j: int| 0 <= j < i implies #[trigger] spec_distance(p, centers[j])
                > spec_distance(p, centers[i]) by {
                assert(centers[j] == sub[j]);
                assert(centers[i] == sub[i]);
            }
            assert(is_nearest(centers, p, i));
        }
    }
}

/// The first-minimum index is unique.
pub proof fn lemma_nearest_unique(centers: Seq<Rgba>, p: Rgba, i1: int, i2: int)
    requires
        is_nearest(centers, p, i1),
        is_nearest(centers, p, i2),
    ensures
        i1 == i2,
{
    if i1 < i2 {
        assert(spec_distance(p, centers[i1]) > spec_distance(p, centers[i2]));
        assert(spec_distance(p, centers[i2]) <= spec_distance(p, centers[i1]));
    }
    if i2 < i1 {
        assert(spec_distance(p, centers[i2]) > spec_distance(p, centers[i1]));
        assert(spec_distance(p, centers[i1]) <= spec_distance(p, centers[i2]));
    }
}

/// Any witness of `is_nearest` is the value of `nearest_index`.
pub proof fn lemma_nearest_index_is(centers: Seq<Rgba>, p: Rgba, i: int)
    requires
        is_nearest(centers, p, i),
    ensures
        nearest_index(centers, p) == i,
{
    let c = nearest_index(centers, p);
    assert(is_nearest(centers, p, c)) by {
        assert(exists|j: int| is_nearest(centers, p, j));
    }
    lemma_nearest_unique(centers, p, c, i);
}

/// The samples assigned to center `c`: the subsequence, in traversal order,
/// of the samples whose nearest center is `c`.
pub open spec fn cluster_of(samples: Seq<Rgba>, centers: Seq<Rgba>, c: int) -> Seq<Rgba>
    decreases samples.len(),
{
    if samples.len() == 0 {
        Seq::empty()
    } else {
        let rest = cluster_of(samples.drop_last(), centers, c);
        if nearest_index(centers, samples.last()) == c {
            rest.push(samples.last())
        } else {
            rest
        }
    }
}

/// One center-update pass: each center moves to the mean of its cluster; a
/// center whose cluster is empty keeps its previous position.
pub open spec fn next_centers(samples: Seq<Rgba>, centers: Seq<Rgba>) -> Seq<Rgba> {
    Seq::new(
        centers.len(),
        |c: int|
            if cluster_of(samples, centers, c).len() == 0 {
                centers[c]
            } else {
                mean_color(cluster_of(samples, centers, c))
            },
    )
}

/// The center set after `iters` update passes starting from `centers0`.
pub open spec fn centers_after(samples: Seq<Rgba>, centers0: Seq<Rgba>, iters: nat) -> Seq<Rgba>
    decreases iters,
{
    if iters == 0 {
        centers0
    } else {
        next_centers(samples, centers_after(samples, centers0, (iters - 1) as nat))
    }
}

/// The `k` initial centers drawn from the generator stream: slot `j` copies
/// the sample at index `lcg_nth(seed, j + 1) mod len` (drawing with
/// replacement, so duplicates are possible).
pub open spec fn initial_centers(samples: Seq<Rgba>, k: nat, seed: u64) -> Seq<Rgba> {
    Seq::new(
        k,
        |j: int| samples[lcg_nth(seed, (j + 1) as nat) as int % samples.len() as int],
    )
}

/// The final output: every sample replaced by its nearest center, in the
/// input's order.
pub open spec fn quantized(samples: Seq<Rgba>, centers: Seq<Rgba>) -> Seq<Rgba> {
    Seq::new(samples.len(), |i: int| centers[nearest_index(centers, samples[i])])
}

} // verus!
