use dehaze::float_bits;
use dehaze::image::Image;
use dehaze::window::{clamped_span, dark_channel, min_filter_gray, sliding_min_line};

fn bits(v: &[f32]) -> Vec<u32> {
    v.iter().map(|x| x.to_bits()).collect()
}

fn floats(v: &[u32]) -> Vec<f32> {
    v.iter().map(|b| f32::from_bits(*b)).collect()
}

fn rgb_bits(data: Vec<[f32; 3]>) -> Vec<[u32; 3]> {
    data.into_iter()
        .map(|p| [p[0].to_bits(), p[1].to_bits(), p[2].to_bits()])
        .collect()
}

#[test]
fn dark_channel_uses_local_rgb_minimum() {
    let img = Image::new(2, 1, rgb_bits(vec![[0.8, 0.7, 0.1], [0.4, 0.9, 0.6]]));
    assert_eq!(floats(&dark_channel(&img, 1)), vec![0.1, 0.4]);
    assert_eq!(floats(&dark_channel(&img, 3)), vec![0.1, 0.1]);
}

#[test]
fn min_filter_matches_naive_window_minimum() {
    let input = vec![0.9, 0.8, 0.7, 0.6, 0.5, 0.4, 0.3, 0.2, 0.1, 0.0, 0.2, 0.4];
    let fast = floats(&min_filter_gray(4, 3, &bits(&input), 1));
    let mut naive = vec![0.0; input.len()];
    for y in 0usize..3 {
        for x in 0usize..4 {
            let mut m = 1.0f32;
            for yy in y.saturating_sub(1)..=(y + 1).min(2) {
                for xx in x.saturating_sub(1)..=(x + 1).min(3) {
                    m = m.min(input[yy * 4 + xx]);
                }
            }
            naive[y * 4 + x] = m;
        }
    }
    assert_eq!(fast, naive);
}

#[test]
fn min_filter_radius_zero_is_identity() {
    let input = bits(&[0.3, 0.1, 0.2, 0.5]);
    assert_eq!(min_filter_gray(2, 2, &input, 0), input);
}

#[test]
fn min_filter_large_radius_takes_global_minimum() {
    let input = [0.9f32, 0.8, 0.05, 0.6, 0.5, 0.4];
    let out = floats(&min_filter_gray(3, 2, &bits(&input), 10));
    assert_eq!(out, vec![0.05; 6]);
}

#[test]
fn sliding_min_line_picks_window_minimum_with_negative_values() {
    let line = bits(&[0.5, -1.0, 2.0, -3.0, 4.0, 0.0]);
    let out = floats(&sliding_min_line(&line, 1));
    assert_eq!(out, vec![-1.0, -1.0, -3.0, -3.0, -3.0, 0.0]);
}

#[test]
fn sliding_min_line_keeps_first_of_equal_zeros() {
    // -0.0 and 0.0 are equal; the first one in the window is kept.
    let line = bits(&[-0.0, 0.0, 1.0]);
    let out = sliding_min_line(&line, 1);
    assert_eq!(out[0], (-0.0f32).to_bits());
    assert_eq!(out[1], (-0.0f32).to_bits());
    assert_eq!(out[2], 0.0f32.to_bits());
}

#[test]
fn dark_channel_ignores_nan_channel_like_f32_min() {
    let img = Image::new(1, 1, rgb_bits(vec![[f32::NAN, 0.4, 0.7]]));
    assert_eq!(floats(&dark_channel(&img, 1)), vec![0.4]);
}

#[test]
fn clamped_span_clips_at_both_edges() {
    assert_eq!(clamped_span(0, 2, 5), (0, 2));
    assert_eq!(clamped_span(3, 2, 5), (1, 4));
    assert_eq!(clamped_span(4, usize::MAX, 5), (0, 4));
}

#[test]
fn order_helpers_follow_f32_comparisons() {
    let values = [f32::NEG_INFINITY, -2.5, -0.0, 0.0, 1e-30, 3.0, f32::INFINITY, f32::NAN];
    for a in values {
        for b in values {
            assert_eq!(float_bits::le(a.to_bits(), b.to_bits()), a <= b, "{a} <= {b}");
            assert_eq!(float_bits::lt(a.to_bits(), b.to_bits()), a < b, "{a} < {b}");
        }
        assert_eq!(float_bits::is_nan(a.to_bits()), a.is_nan());
        let m = f32::from_bits(float_bits::min(a.to_bits(), 1.0f32.to_bits()));
        assert_eq!(m, a.min(1.0));
    }
    let c = f32::from_bits(float_bits::clamp(1.7f32.to_bits(), 0.0f32.to_bits(), 1.0f32.to_bits()));
    assert_eq!(c, 1.0);
    let c = f32::from_bits(float_bits::clamp((-0.2f32).to_bits(), 0.0f32.to_bits(), 1.0f32.to_bits()));
    assert_eq!(c, 0.0);
    assert!(float_bits::key((-1.0f32).to_bits()) < float_bits::key(0.5f32.to_bits()));
    assert_eq!(float_bits::key((-0.0f32).to_bits()), float_bits::key(0.0f32.to_bits()));
}

#[test]
fn image_set_then_get_returns_value() {
    let mut img = Image::blank(3, 2, 7u8);
    assert_eq!(img.idx(2, 1), 5);
    img.set(2, 1, 9);
    assert_eq!(img.get(2, 1), 9);
    assert_eq!(img.get(1, 1), 7);
    assert_eq!(img.data.len(), 6);
}

fn pseudo_random(seed: &mut u64) -> f32 {
    *seed = seed.wrapping_mul(6364136223846793005).wrapping_add(1442695040888963407);
    ((*seed >> 40) % 1000) as f32 / 999.0
}

#[test]
fn min_filter_is_square_minimum_on_many_grids() {
    let mut seed = 7u64;
    for (w, h) in [(1usize, 1usize), (5, 1), (1, 6), (4, 3), (7, 5), (9, 9)] {
        let input: Vec<f32> = (0..w * h).map(|_| pseudo_random(&mut seed)).collect();
        for r in 0..4usize {
            let out = floats(&min_filter_gray(w, h, &bits(&input), r));
            for y in 0..h {
                for x in 0..w {
                    let mut m = f32::INFINITY;
                    for yy in y.saturating_sub(r)..=(y + r).min(h - 1) {
                        for xx in x.saturating_sub(r)..=(x + r).min(w - 1) {
                            m = m.min(input[yy * w + xx]);
                        }
                    }
                    assert_eq!(out[y * w + x], m, "w={w} h={h} r={r} x={x} y={y}");
                    assert!(out[y * w + x] <= input[y * w + x]);
                }
            }
        }
    }
}

#[test]
fn dark_channel_is_below_every_channel_of_its_patch() {
    let mut seed = 11u64;
    let (w, h) = (6usize, 4usize);
    let data: Vec<[f32; 3]> = (0..w * h)
        .map(|_| [pseudo_random(&mut seed), pseudo_random(&mut seed), pseudo_random(&mut seed)])
        .collect();
    let img = Image::new(w, h, rgb_bits(data.clone()));
    let dark = floats(&dark_channel(&img, 3));
    for y in 0..h {
        for x in 0..w {
            let d = dark[y * w + x];
            let mut found = false;
            for yy in y.saturating_sub(1)..=(y + 1).min(h - 1) {
                for xx in x.saturating_sub(1)..=(x + 1).min(w - 1) {
                    for c in 0..3 {
                        assert!(d <= data[yy * w + xx][c]);
                        found |= d == data[yy * w + xx][c];
                    }
                }
            }
            assert!(found);
        }
    }
}

#[test]
fn sliding_min_line_nan_hides_the_samples_before_it() {
    // NaN compares `<=` to nothing: 0.0 before the NaN is never picked.
    let line = bits(&[0.0, f32::NAN, 1.0]);
    let out = floats(&sliding_min_line(&line, 1));
    assert!(out[0].is_nan());
    assert_eq!(out[1], 1.0);
    assert_eq!(out[2], 1.0);
}

#[test]
fn sliding_min_line_picks_a_trailing_nan() {
    let line = bits(&[2.0, f32::NAN]);
    let out = floats(&sliding_min_line(&line, 5));
    assert!(out[0].is_nan());
    assert!(out[1].is_nan());
}

/// In each window, the first sample that is `<=` every later sample of the
/// window (the last sample when none is).
fn first_le_all_later(line: &[f32], r: usize) -> Vec<u32> {
    let n = line.len();
    (0..n)
        .map(|k| {
            let lo = k.saturating_sub(r);
            let hi = (k + r).min(n - 1);
            let pick = (lo..=hi)
                .find(|&j| (j + 1..=hi).all(|j2| line[j] <= line[j2]))
                .unwrap();
            line[pick].to_bits()
        })
        .collect()
}

#[test]
fn sliding_min_line_matches_first_sample_le_all_later_ones() {
    let lines: Vec<Vec<f32>> = vec![
        vec![3.0, f32::NAN, 1.0, 2.0, f32::NAN, 0.5, 0.5, -1.0],
        vec![f32::NAN, f32::NAN, 0.0, -0.0, 4.0],
        vec![1.0, 2.0, 3.0, f32::NAN, 0.0, 1.0, 2.0, 3.0, 4.0],
        vec![-2.0, 5.0, f32::NAN],
    ];
    for line in &lines {
        for r in 0..4 {
            assert_eq!(sliding_min_line(&bits(line), r), first_le_all_later(line, r));
        }
    }
}

#[test]
fn min_filter_with_nan_follows_rows_then_columns() {
    // 2 x 2 grid; the NaN sits at (1, 0).
    let input = bits(&[0.5, f32::NAN, 0.25, 1.0]);
    let out = floats(&min_filter_gray(2, 2, &input, 1));
    // Row pass: [NaN, NaN, 0.25, 0.25]; column pass: NaN is followed by 0.25.
    assert_eq!(out, vec![0.25, 0.25, 0.25, 0.25]);
}
