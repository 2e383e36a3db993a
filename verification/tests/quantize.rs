use kmeans_quant::color::distance;
use kmeans_quant::kmeans::cluster_mean;
use kmeans_quant::kmeans::reduce_colors;
use kmeans_quant::kmeans::select_centers;
use kmeans_quant::kmeans::select_closest_center;
use kmeans_quant::get_unix_timestamp;
use kmeans_quant::QuantizeError;
use kmeans_quant::Rgba;
use kmeans_quant::Rng;

fn px(r: u8, g: u8, b: u8, a: u8) -> Rgba {
    Rgba { r, g, b, a }
}

/// The indices the generator would draw for `k` centers over `n` samples.
fn drawn_indices(seed: u64, k: usize, n: usize) -> Vec<usize> {
    let mut rng = Rng::new(seed);
    (0..k).map(|_| (rng.next() % (n as u64)) as usize).collect()
}

#[test]
fn rng_fixed_seed_stream() {
    let mut rng = Rng::new(42);
    assert_eq!(rng.next(), 1258627373665771185);
    assert_eq!(rng.next(), 4159066171780167020);
    assert_eq!(rng.next(), 7615522811268512075);
}

#[test]
fn rng_same_seed_same_stream() {
    let mut a = Rng::new(987654321);
    let mut b = Rng::new(987654321);
    for _ in 0..10 {
        assert_eq!(a.next(), b.next());
    }
}

#[test]
fn rng_stays_below_modulus() {
    let mut rng = Rng::new(u64::MAX);
    for _ in 0..100 {
        assert!(rng.next() < 1u64 << 63);
    }
}

#[test]
fn distance_exact_three_four_five() {
    assert_eq!(distance(&px(0, 0, 0, 255), &px(3, 4, 0, 0)), 5);
}

#[test]
fn distance_takes_floor_of_root() {
    // squared distance 1 + 1 + 1 = 3, so the distance is floor(sqrt(3)) = 1
    assert_eq!(distance(&px(1, 1, 1, 0), &px(0, 0, 0, 0)), 1);
    // squared distance 3 * 255^2 = 195075, floor(sqrt) = 441
    assert_eq!(distance(&px(255, 255, 255, 0), &px(0, 0, 0, 0)), 441);
}

#[test]
fn distance_zero_on_self_and_ignores_alpha() {
    let a = px(12, 200, 7, 255);
    assert_eq!(distance(&a, &a), 0);
    // alpha differs, r/g/b match: still distance zero
    assert_eq!(distance(&px(12, 200, 7, 255), &px(12, 200, 7, 0)), 0);
}

#[test]
fn distance_symmetric() {
    let a = px(1, 2, 3, 4);
    let b = px(200, 100, 50, 25);
    assert_eq!(distance(&a, &b), distance(&b, &a));
}

#[test]
fn cluster_mean_single_sample_unchanged() {
    let c = vec![px(13, 77, 201, 9)];
    assert_eq!(cluster_mean(&c), px(13, 77, 201, 9));
}

#[test]
fn cluster_mean_two_samples_floor_average() {
    let c = vec![px(0, 0, 0, 0), px(10, 10, 10, 10)];
    assert_eq!(cluster_mean(&c), px(5, 5, 5, 5));
    let d = vec![px(1, 0, 0, 0), px(2, 0, 0, 0)];
    assert_eq!(cluster_mean(&d), px(1, 0, 0, 0));
}

#[test]
fn cluster_mean_includes_alpha() {
    let c = vec![px(0, 0, 0, 100), px(0, 0, 0, 201)];
    assert_eq!(cluster_mean(&c), px(0, 0, 0, 150));
}

#[test]
fn closest_center_picks_minimum() {
    let centers = vec![px(0, 0, 0, 0), px(100, 0, 0, 0), px(10, 10, 10, 0)];
    assert_eq!(select_closest_center(&centers, &px(9, 9, 9, 0)), 2);
}

#[test]
fn closest_center_tie_goes_to_first() {
    // both centers are at distance 5; the lowest index wins
    let centers = vec![px(0, 0, 0, 0), px(10, 0, 0, 0)];
    assert_eq!(select_closest_center(&centers, &px(5, 0, 0, 0)), 0);
    // identical centers: still the first
    let twins = vec![px(7, 7, 7, 7), px(7, 7, 7, 7)];
    assert_eq!(select_closest_center(&twins, &px(0, 0, 0, 0)), 0);
}

#[test]
fn select_centers_reproducible() {
    let pixels = vec![px(1, 1, 1, 1), px(2, 2, 2, 2), px(3, 3, 3, 3), px(4, 4, 4, 4)];
    let mut rng1 = Rng::new(2024);
    let mut rng2 = Rng::new(2024);
    let c1 = select_centers(&pixels, 3, &mut rng1);
    let c2 = select_centers(&pixels, 3, &mut rng2);
    assert_eq!(c1.len(), 3);
    assert_eq!(c1, c2);
    // and the centers are exactly the samples at the drawn indices
    let idx = drawn_indices(2024, 3, pixels.len());
    for (slot, i) in idx.into_iter().enumerate() {
        assert_eq!(c1[slot], pixels[i]);
    }
}

#[test]
fn reduce_colors_empty_input() {
    let pixels: Vec<Rgba> = vec![];
    let mut rng = Rng::new(7);
    assert_eq!(reduce_colors(&pixels, 2, 10, &mut rng), Err(QuantizeError::EmptyInput));
}

#[test]
fn reduce_colors_rejects_zero_palette() {
    let pixels = vec![px(1, 2, 3, 4)];
    let mut rng = Rng::new(7);
    assert_eq!(reduce_colors(&pixels, 0, 10, &mut rng), Err(QuantizeError::InvalidPaletteSize));
}

#[test]
fn reduce_colors_rejects_oversized_palette() {
    let pixels = vec![px(1, 2, 3, 4), px(5, 6, 7, 8)];
    let mut rng = Rng::new(7);
    assert_eq!(reduce_colors(&pixels, 3, 10, &mut rng), Err(QuantizeError::InvalidPaletteSize));
}

#[test]
fn output_has_input_length_and_at_most_k_colors() {
    let pixels = vec![
        px(0, 0, 0, 255),
        px(3, 1, 0, 255),
        px(250, 250, 250, 255),
        px(247, 251, 255, 255),
        px(1, 2, 3, 255),
        px(255, 255, 255, 255),
    ];
    let mut rng = Rng::new(5);
    let out = reduce_colors(&pixels, 2, 4, &mut rng).unwrap();
    assert_eq!(out.len(), pixels.len());
    let mut palette: Vec<Rgba> = Vec::new();
    for p in &out {
        if !palette.contains(p) {
            palette.push(*p);
        }
    }
    assert!(palette.len() <= 2);
}

#[test]
fn single_palette_collapses_to_global_mean() {
    let pixels = vec![px(0, 0, 0, 0), px(10, 10, 10, 10), px(5, 5, 5, 5)];
    for iterations in [1usize, 7] {
        let mut rng = Rng::new(99);
        let out = reduce_colors(&pixels, 1, iterations, &mut rng).unwrap();
        assert_eq!(out, vec![px(5, 5, 5, 5); 3]);
    }
}

#[test]
fn exact_match_centers_keep_input_unchanged() {
    // two black and two white samples; seed 1 draws indices 0 and 3, so the
    // initial centers are the two distinct colors present
    let pixels = vec![
        px(0, 0, 0, 255),
        px(0, 0, 0, 255),
        px(255, 255, 255, 255),
        px(255, 255, 255, 255),
    ];
    let idx = drawn_indices(1, 2, pixels.len());
    assert!(idx.iter().any(|&i| i < 2) && idx.iter().any(|&i| i >= 2));
    let mut rng = Rng::new(1);
    let out = reduce_colors(&pixels, 2, 1, &mut rng).unwrap();
    assert_eq!(out, pixels);
}

#[test]
fn one_center_per_distinct_color_gives_zero_error() {
    // three tight one-color clusters, three samples each; seed 0 draws one
    // index out of each group, so every distinct color starts as a center
    let a = px(10, 10, 10, 255);
    let b = px(200, 50, 0, 255);
    let c = px(0, 0, 255, 255);
    let pixels = vec![a, a, a, b, b, b, c, c, c];
    let idx = drawn_indices(0, 3, pixels.len());
    let mut groups: Vec<usize> = idx.iter().map(|i| i / 3).collect();
    groups.sort();
    assert_eq!(groups, vec![0, 1, 2]);
    let mut rng = Rng::new(0);
    let out = reduce_colors(&pixels, 3, 10, &mut rng).unwrap();
    assert_eq!(out, pixels);
}

#[test]
fn timestamp_seeds_the_generator() {
    let seed = get_unix_timestamp();
    assert!(seed > 0);
    let mut a = Rng::new(seed);
    let mut b = Rng::new(seed);
    assert_eq!(a.next(), b.next());
}
