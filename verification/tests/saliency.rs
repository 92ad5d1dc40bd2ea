use firemark::pixmap::Pixmap;
use firemark::saliency::{p95_energy, row_gradient_density, smooth_density, top_bands, BlockEnergy};

#[test]
fn block_energy_of_a_small_image() {
    // 2x2: the block side is 8, so one block holds every pixel.
    let img = Pixmap::from_raw(
        2,
        2,
        vec![0, 0, 0, 255, 10, 0, 0, 255, 0, 5, 0, 255, 1, 1, 1, 255],
    )
    .unwrap();
    let be = BlockEnergy::of_image(&img);
    assert_eq!((be.side, be.cols, be.rows), (8, 1, 1));
    // (1,0): 10 from the left. (0,1): 5 from above. (1,1): |1-0|+|1-5|+|1-0| = 6
    // from the left and |1-10|+1+1 = 11 from above.
    assert_eq!(be.energy, vec![10 + 5 + 6 + 11]);
}

#[test]
fn block_grid_of_a_wide_image() {
    let img = Pixmap::from_raw(20, 3, vec![0; 20 * 3 * 4]).unwrap();
    let be = BlockEnergy::of_image(&img);
    assert_eq!((be.side, be.cols, be.rows), (8, 3, 1));
    assert_eq!(be.energy, vec![0, 0, 0]);
    assert_eq!(be.block_index(17, 2), Some(2));
    assert_eq!(be.block_index(19, 2), Some(2));
    // Past the right or bottom edge of the image: no block, score 0.
    assert_eq!(be.block_index(500, 500), None);
    assert_eq!(be.block_index(20, 0), None);
    assert_eq!(be.block_index(23, 2), None);
    assert_eq!(be.block_index(0, 3), None);
    assert_eq!(be.block_index(7, 0), Some(0));
    assert_eq!(be.block_index(8, 0), Some(1));
    assert_eq!(be.block_index(-1, 0), None);
}

#[test]
fn p95_reference() {
    assert_eq!(p95_energy(&vec![5, 1, 3]), 5);
    assert_eq!(p95_energy(&vec![0]), 1);
    let values: Vec<u128> = (1..=100).rev().collect();
    // 100 * 95 / 100 = 95: the 96th smallest value.
    assert_eq!(p95_energy(&values), 96);
}

#[test]
fn row_density() {
    let img = Pixmap::from_raw(
        3,
        2,
        vec![0, 0, 0, 255, 10, 0, 0, 255, 10, 5, 0, 255, 9, 9, 9, 0, 9, 9, 9, 0, 9, 9, 9, 0],
    )
    .unwrap();
    assert_eq!(row_gradient_density(&img), vec![15, 0]);
}

#[test]
fn smoothing_is_a_window_sum() {
    // A filter one row wide leaves the profile as it is.
    assert_eq!(smooth_density(&vec![1, 1, 1], 1), vec![1, 1, 1]);
    assert_eq!(smooth_density(&vec![1, 2, 3, 4], 1), vec![1, 2, 3, 4]);
    assert_eq!(smooth_density(&vec![1, 2, 3, 4], 0), vec![1, 2, 3, 4]);
    // kernel 2: rows i and i+1
    assert_eq!(smooth_density(&vec![1, 2, 3, 4], 2), vec![3, 5, 7, 4]);
    // kernel 3: rows i-1 ..= i+1
    assert_eq!(smooth_density(&vec![1, 2, 3, 4, 5], 3), vec![3, 6, 9, 12, 9]);
    assert_eq!(smooth_density(&vec![1, 2], 10), vec![3, 3]);
    assert!(smooth_density(&vec![], 3).is_empty());
}

#[test]
fn densest_bands_apart() {
    assert_eq!(top_bands(&vec![5, 9, 9, 1, 7], 2, 2), vec![1, 4]);
    assert_eq!(top_bands(&vec![5, 9, 9, 1, 7], 8, 1), vec![1, 2, 4, 0, 3]);
    assert_eq!(top_bands(&vec![5, 9, 9, 1, 7], 0, 1), Vec::<usize>::new());
    let bands = top_bands(&vec![3, 3, 3, 3, 3, 3], 8, 2);
    assert_eq!(bands, vec![0, 2, 4]);
}

#[test]
fn region_scan_samples_one_point_per_block_step() {
    let be = BlockEnergy { width: 24, height: 16, side: 8, cols: 3, rows: 2, energy: vec![0; 6] };
    assert_eq!(
        be.region_blocks(-4, 0, 20, 9),
        vec![None, Some(0), Some(1), None, Some(3), Some(4)]
    );
    assert_eq!(be.region_blocks(23, 15, 1, 1), vec![Some(5)]);
    // Past the right or bottom edge of the grid no block is sampled.
    assert_eq!(be.region_blocks(30, 20, 1, 1), vec![None]);
    assert_eq!(be.region_blocks(20, 0, 9, 1), vec![Some(2), None]);
    assert!(be.region_blocks(0, 0, 0, 50).is_empty());
    assert_eq!(be.region_blocks(0, 0, 8, 16).len(), 2);
    // A 20 x 12 image on the same grid: points past the image sample nothing.
    let be = BlockEnergy { width: 20, height: 12, side: 8, cols: 3, rows: 2, energy: vec![0; 6] };
    assert_eq!(be.region_blocks(20, 0, 9, 1), vec![None, None]);
    assert_eq!(be.region_blocks(12, 8, 9, 5), vec![Some(4), None]);
    assert_eq!(be.region_blocks(4, 11, 1, 2), vec![Some(3)]);
    assert_eq!(be.region_blocks(4, 12, 1, 1), vec![None]);
}

#[test]
fn bands_go_densest_first_and_leave_no_fitting_row() {
    let density: Vec<u128> = vec![5, 9, 9, 1, 7, 8, 2];
    let bands = top_bands(&density, 8, 2);
    assert_eq!(bands, vec![1, 5, 3]);
    for pair in bands.windows(2) {
        assert!(density[pair[0]] >= density[pair[1]]);
    }
    // Fewer than 8 picked: every other row is closer than 2 to a pick.
    for r in 0..density.len() {
        if !bands.contains(&r) {
            assert!(bands.iter().any(|&b| (b as i64 - r as i64).abs() < 2));
        }
    }
}
