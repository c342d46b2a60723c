use dehaze::motion::{motion_blocks, pick_lowest, search_offsets, search_radius, Block};
use dehaze::config::MotionParams;
use dehaze::ranking::{airlight_candidates, pick_best, rank_by_darkness};

fn bits(v: &[f32]) -> Vec<u32> {
    v.iter().map(|x| x.to_bits()).collect()
}

#[test]
fn ranking_is_descending_and_stable() {
    let dark = bits(&[0.2, 0.9, 0.5, 0.9, 0.0, 0.5]);
    assert_eq!(rank_by_darkness(&dark), vec![1, 3, 2, 5, 0, 4]);
}

#[test]
fn ranking_treats_signed_zeros_as_equal() {
    let dark = bits(&[0.0, -0.0, -1.0, 0.0]);
    assert_eq!(rank_by_darkness(&dark), vec![0, 1, 3, 2]);
}

#[test]
fn ranking_of_empty_input_is_empty() {
    assert!(rank_by_darkness(&Vec::new()).is_empty());
}

#[test]
fn candidates_are_the_brightest_dark_values() {
    let dark = bits(&[0.99, 0.74, 0.20, 0.10]);
    assert_eq!(airlight_candidates(&dark, 8), vec![0, 1, 2, 3]);
    assert_eq!(airlight_candidates(&dark, 2), vec![0, 1]);
    let many: Vec<f32> = (0..20).map(|i| (i % 7) as f32 / 10.0).collect();
    let cands = airlight_candidates(&bits(&many), 3);
    assert_eq!(cands, vec![6, 13, 5]);
}

#[test]
fn pick_best_takes_first_largest_score() {
    assert_eq!(pick_best(&bits(&[0.1, 0.7, 0.3, 0.7])), 1);
    assert_eq!(pick_best(&bits(&[f32::NAN, 0.2, f32::NAN])), 1);
    assert_eq!(pick_best(&bits(&[f32::NEG_INFINITY, f32::NAN])), 0);
    assert_eq!(pick_best(&bits(&[-5.0, -0.0, 0.0])), 1);
    assert_eq!(pick_best(&Vec::new()), 0);
}

#[test]
fn pick_lowest_takes_first_smallest_cost() {
    assert_eq!(pick_lowest(&bits(&[0.5, 0.2, 0.2, 0.9])), Some(1));
    assert_eq!(pick_lowest(&bits(&[f32::INFINITY, f32::NAN])), None);
    assert_eq!(pick_lowest(&bits(&[f32::INFINITY, 3.0])), Some(1));
}

#[test]
fn search_radius_scales_with_levels() {
    let p = MotionParams { search_radius: 6, block_size: 12, pyramid_levels: 2 };
    assert_eq!(search_radius(&p), 12);
    let p = MotionParams { search_radius: 0, block_size: 12, pyramid_levels: 0 };
    assert_eq!(search_radius(&p), 1);
    assert_eq!(search_radius(&MotionParams::default()), 12);
}

#[test]
fn search_offsets_run_row_by_row() {
    let offs = search_offsets(1);
    assert_eq!(
        offs,
        vec![(-1, -1), (0, -1), (1, -1), (-1, 0), (0, 0), (1, 0), (-1, 1), (0, 1), (1, 1)]
    );
    assert_eq!(search_offsets(0), vec![(0, 0)]);
}

#[test]
fn blocks_tile_the_frame() {
    let blocks = motion_blocks(10, 5, 4);
    assert_eq!(
        blocks,
        vec![
            Block { x: 0, y: 0, width: 4, height: 4 },
            Block { x: 4, y: 0, width: 4, height: 4 },
            Block { x: 8, y: 0, width: 2, height: 4 },
            Block { x: 0, y: 4, width: 4, height: 1 },
            Block { x: 4, y: 4, width: 4, height: 1 },
            Block { x: 8, y: 4, width: 2, height: 1 },
        ]
    );
    // Block sizes below four are raised to four.
    assert_eq!(motion_blocks(3, 3, 1), vec![Block { x: 0, y: 0, width: 3, height: 3 }]);
    assert!(motion_blocks(0, 7, 4).is_empty());
    let mut covered = vec![0; 7 * 9];
    for b in motion_blocks(7, 9, 5) {
        for y in b.y..b.y + b.height {
            for x in b.x..b.x + b.width {
                covered[y * 7 + x] += 1;
            }
        }
    }
    assert!(covered.iter().all(|&c| c == 1));
}

#[test]
fn counting_and_maxima_follow_f32() {
    use_reductions();
}

fn use_reductions() {
    let values = bits(&[0.5, 0.9, f32::NAN, 0.78, 0.79, -1.0]);
    assert_eq!(dehaze::reduce::count_greater(&values, 0.78f32.to_bits()), 2);
    assert_eq!(dehaze::reduce::count_greater(&Vec::new(), 0.0f32.to_bits()), 0);
    let m = dehaze::reduce::fold_max(&values, 0.0f32.to_bits());
    assert_eq!(f32::from_bits(m), 0.9);
    let m = dehaze::reduce::fold_max(&bits(&[-3.0, -2.0]), 0.0f32.to_bits());
    assert_eq!(f32::from_bits(m), 0.0);
    assert_eq!(dehaze::float_bits::max(f32::NAN.to_bits(), 2.0f32.to_bits()), 2.0f32.to_bits());
}
