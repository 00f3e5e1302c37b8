use fractal_dim::FIXED_ONE;
use fractal_dim::aggregate::{filter_occupied, level_stats, MAX_LEVEL};
use fractal_dim::driver::{
    analyze_all, analyze_frame, frame_at, separator_byte, validate_shape, Shape4,
};
use fractal_dim::encode::{interleave, keys, KeyStrategy};
use fractal_dim::estimate::{
    estimate_dimension, lacunarity_fixed, log2_fixed_exec, AnalysisError,
};
use fractal_dim::grid::Dims;
use fractal_dim::threshold::{occupancy, occupancy_mask};

fn cube(extent: usize, fill: i32) -> (Vec<i32>, Dims) {
    let d = Dims {
        x: extent,
        y: extent,
        z: extent,
    };
    (vec![fill; extent * extent * extent], d)
}

// Flat index of voxel (x, y, z): z varies fastest.
fn idx(d: Dims, x: usize, y: usize, z: usize) -> usize {
    (x * d.y + y) * d.z + z
}

#[test]
fn threshold_boundary_is_inclusive() {
    // Intensity exactly 2 is occupied; 1 is empty.
    assert_eq!(occupancy(2), 255);
    assert_eq!(occupancy(1), 0);
    assert_eq!(occupancy(0), 0);
    assert_eq!(occupancy(-5), 0);
    assert_eq!(occupancy(i32::MAX), 255);
}

#[test]
fn threshold_mask_maps_each_voxel() {
    let mask = occupancy_mask(&vec![0, 1, 2, 3, -1]);
    assert_eq!(mask, vec![0, 0, 255, 255, 0]);
}

#[test]
fn interleave_bit_layout() {
    // x's top bit lands at key bit 31; occupancy 255 fills bits 28,24,...,0.
    assert_eq!(interleave(0x80, 0, 0, 0), 0x8000_0000);
    assert_eq!(interleave(0, 0x80, 0, 0), 0x4000_0000);
    assert_eq!(interleave(0, 0, 0x80, 0), 0x2000_0000);
    assert_eq!(interleave(0, 0, 0, 0xFF), 0x1111_1111);
    assert_eq!(interleave(0x80, 0, 0, 0xFF), 0x9111_1111);
    assert_eq!(interleave(0xFF, 0xFF, 0xFF, 0xFF), 0xFFFF_FFFF);
    assert_eq!(interleave(0, 0, 0, 0), 0);
}

#[test]
fn key_strategies_agree() {
    // Determinism: sequential and data-parallel key generation produce
    // identical keys for the same frame.
    let (mut g, d) = cube(4, 0);
    g[idx(d, 1, 2, 3)] = 7;
    g[idx(d, 3, 0, 1)] = 2;
    g[idx(d, 0, 0, 0)] = 1;
    let a = keys(&g, d, KeyStrategy::Sequential);
    let b = keys(&g, d, KeyStrategy::Parallel);
    assert_eq!(a, b);
}

#[test]
fn level_stats_counts_boxes_and_masses() {
    // Three keys, two boxes at level 1 (top four bits 0 and 1).
    let ks: Vec<u32> = vec![0x0000_0000, 0x1000_0000, 0x1000_0001];
    let (boxes, sq) = level_stats(&ks, 1);
    assert_eq!(boxes, 2);
    // Masses 1 and 2: squares sum to 5.
    assert_eq!(sq, 5);
    // Level 0 is one box holding everything.
    let (boxes0, sq0) = level_stats(&ks, 0);
    assert_eq!(boxes0, 1);
    assert_eq!(sq0, 9);
}

#[test]
fn box_counts_non_increasing_toward_coarse() {
    // Coarser scale never has more boxes, on an arbitrary sorted key set.
    let mut ks: Vec<u32> = vec![
        0x0000_0001,
        0x1000_0000,
        0x1000_0002,
        0x5123_4567,
        0x9111_1111,
        0x9111_1111,
        0xFFFF_0000,
    ];
    ks.sort_unstable();
    let mut prev = 0u64;
    for l in 0..=MAX_LEVEL {
        let (boxes, _) = level_stats(&ks, l);
        assert!(prev <= boxes, "boxes must not shrink as the level refines");
        prev = boxes;
    }
}

#[test]
fn mass_conservation_at_every_level() {
    // The per-box masses sum to the voxel count at every level; with
    // per-box squares available, check the extremes exactly.
    let (mut g, d) = cube(4, 0);
    g[idx(d, 0, 0, 0)] = 9;
    g[idx(d, 3, 3, 3)] = 9;
    let mut ks = keys(&g, d, KeyStrategy::Sequential);
    ks.sort_unstable();
    let (boxes0, sq0) = level_stats(&ks, 0);
    assert_eq!(boxes0, 1);
    assert_eq!(sq0, 64 * 64); // one box of mass 64
    for l in 0..=MAX_LEVEL {
        let (boxes, sq) = level_stats(&ks, l);
        assert!(boxes >= 1 && boxes <= 64);
        assert!(sq >= 64); // sum of squares of masses summing to 64
        assert!(sq <= 64 * 64);
    }
}

#[test]
fn filter_occupied_keeps_occupied_keys_only() {
    let (mut g, d) = cube(4, 0);
    g[idx(d, 1, 1, 1)] = 2;
    let mut ks = keys(&g, d, KeyStrategy::Sequential);
    ks.sort_unstable();
    let occ = filter_occupied(&ks);
    assert_eq!(occ.len(), 1);
    // Bit 28 is the occupancy bit.
    assert_eq!((occ[0] >> 28) & 1, 1);
}

#[test]
fn log2_fixed_values() {
    assert_eq!(log2_fixed_exec(1), 0);
    assert_eq!(log2_fixed_exec(2), FIXED_ONE);
    assert_eq!(log2_fixed_exec(4), 2 * FIXED_ONE);
    assert_eq!(log2_fixed_exec(256), 8 * FIXED_ONE);
    // log2(3) in fixed point: floor(log2(3^63)) = 99, then 99 * 65536 / 63.
    assert_eq!(log2_fixed_exec(3), 99 * FIXED_ONE / 63);
}

#[test]
fn estimate_dimension_exact_slopes() {
    // Counts doubling per level: slope exactly one.
    assert_eq!(estimate_dimension(&vec![1, 2, 4]), Ok(FIXED_ONE));
    // Counts x8 per level: slope exactly three.
    assert_eq!(estimate_dimension(&vec![1, 8, 64]), Ok(3 * FIXED_ONE));
    // Flat counts: slope zero.
    assert_eq!(estimate_dimension(&vec![5, 5, 5, 5]), Ok(0));
}

#[test]
fn estimate_dimension_needs_two_points() {
    assert_eq!(estimate_dimension(&vec![1]), Err(AnalysisError::Numerical));
    assert_eq!(
        estimate_dimension(&Vec::new()),
        Err(AnalysisError::Numerical)
    );
}

#[test]
fn full_grid_dimension_is_three() {
    let (g, d) = cube(8, 5);
    let r = analyze_frame(&g, d, 0, KeyStrategy::Sequential).unwrap();
    assert_eq!(r.frame, 0);
    // Fixed point 3.0, well within +/- 0.1.
    assert_eq!(r.dimension_fp, 3 * FIXED_ONE);
}

#[test]
fn empty_grid_yields_sentinel() {
    let (g, d) = cube(8, 0);
    let r = analyze_frame(&g, d, 0, KeyStrategy::Sequential).unwrap();
    assert_eq!(r.dimension_fp, 0);
}

#[test]
fn line_dimension_is_one() {
    let (mut g, d) = cube(8, 0);
    for x in 0..8 {
        g[idx(d, x, 0, 0)] = 2;
    }
    let r = analyze_frame(&g, d, 0, KeyStrategy::Sequential).unwrap();
    assert_eq!(r.dimension_fp, FIXED_ONE);
}

#[test]
fn slab_dimension_is_two() {
    let (mut g, d) = cube(8, 0);
    for x in 0..8 {
        for y in 0..8 {
            g[idx(d, x, y, 0)] = 3;
        }
    }
    let r = analyze_frame(&g, d, 0, KeyStrategy::Sequential).unwrap();
    assert_eq!(r.dimension_fp, 2 * FIXED_ONE);
}

#[test]
fn parallel_and_sequential_results_agree() {
    let (mut g, d) = cube(8, 0);
    for x in 0..8 {
        for y in 0..x {
            g[idx(d, x, y, (x + y) % 8)] = 2 + x as i32;
        }
    }
    let a = analyze_frame(&g, d, 0, KeyStrategy::Sequential).unwrap();
    let b = analyze_frame(&g, d, 0, KeyStrategy::Parallel).unwrap();
    assert_eq!(a.dimension_fp, b.dimension_fp);
    assert_eq!(a.lacunarity_fp, b.lacunarity_fp);
}

#[test]
fn degenerate_extent_reports_numerical_error() {
    let g = vec![7];
    let d = Dims { x: 1, y: 1, z: 1 };
    let r = analyze_frame(&g, d, 0, KeyStrategy::Sequential);
    assert_eq!(r.unwrap_err(), AnalysisError::Numerical);
}

#[test]
fn lacunarity_of_uniform_grid_is_one() {
    // Fully occupied grid: every box of a level has the same mass, so the
    // variance term vanishes and the statistic is exactly one.
    let (g, d) = cube(4, 9);
    let r = analyze_frame(&g, d, 0, KeyStrategy::Sequential).unwrap();
    assert_eq!(r.lacunarity_fp.len(), 9);
    for l in 0..9 {
        assert_eq!(r.lacunarity_fp[l], FIXED_ONE);
    }
}

#[test]
fn lacunarity_fixed_formula() {
    // 2 boxes with masses 1 and 3 out of 4 samples:
    // 2 * (1 + 9) * 65536 / 16 = 81920.
    assert_eq!(lacunarity_fixed(2, 10, 4), 81920);
}

#[test]
fn validate_shape_accepts_4d() {
    let s = validate_shape(&vec![2, 4, 5, 6]).unwrap();
    assert_eq!(
        s,
        Shape4 {
            frames: 2,
            dims: Dims { x: 4, y: 5, z: 6 }
        }
    );
}

#[test]
fn validate_shape_rejects_bad_shapes() {
    assert_eq!(
        validate_shape(&vec![2, 4, 4]),
        Err(AnalysisError::InputFormat)
    );
    assert_eq!(
        validate_shape(&vec![2, 4, 4, 4, 4]),
        Err(AnalysisError::InputFormat)
    );
    assert_eq!(
        validate_shape(&vec![2, 0, 4, 4]),
        Err(AnalysisError::InputFormat)
    );
    // A frame of 2^32 voxels or more is beyond the aggregator's counters.
    assert_eq!(
        validate_shape(&vec![1, 0x1_0000, 0x1_0000, 1]),
        Err(AnalysisError::InputFormat)
    );
}

#[test]
fn frame_at_slices_in_order() {
    let s = Shape4 {
        frames: 2,
        dims: Dims { x: 1, y: 1, z: 3 },
    };
    let data = vec![1, 2, 3, 4, 5, 6];
    assert_eq!(frame_at(&data, s, 0), vec![1, 2, 3]);
    assert_eq!(frame_at(&data, s, 1), vec![4, 5, 6]);
}

#[test]
fn end_to_end_two_frames() {
    // Frame 0 all zeros, frame 1 all at the cutoff: two rows in order,
    // the sentinel then a solid three-dimensional aggregate.
    let s = validate_shape(&vec![2, 4, 4, 4]).unwrap();
    let mut data = vec![0i32; 128];
    for v in data.iter_mut().skip(64) {
        *v = 2;
    }
    let rs = analyze_all(&data, s, KeyStrategy::Parallel).unwrap();
    assert_eq!(rs.len(), 2);
    assert_eq!(rs[0].frame, 0);
    assert_eq!(rs[1].frame, 1);
    assert_eq!(rs[0].dimension_fp, 0);
    assert_eq!(rs[1].dimension_fp, 3 * FIXED_ONE);
}

#[test]
fn separator_byte_single_byte_only() {
    assert_eq!(separator_byte('\t'), Ok(9));
    assert_eq!(separator_byte(','), Ok(b','));
    let two_byte = char::from_u32(955).unwrap();
    assert_eq!(separator_byte(two_byte), Err(AnalysisError::InputFormat));
}

#[test]
fn analyze_all_aborts_on_first_failing_frame() {
    // A single-voxel grid gives no second scale level: the whole run fails.
    let s = validate_shape(&vec![3, 1, 1, 1]).unwrap();
    let data = vec![2, 2, 2];
    let r = analyze_all(&data, s, KeyStrategy::Sequential);
    assert_eq!(r.unwrap_err(), AnalysisError::Numerical);
}
