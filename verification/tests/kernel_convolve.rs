use blurpipe::SCALE;
use blurpipe::PipelineError;
use blurpipe::kernel::{Kernel, exp_fixed, generate_gaussian_weight_kernel, normalize_kernel};
use blurpipe::convolve::{convolve, convolve_pixel, filter_frame};
use blurpipe::frame::IntensityFrame;

fn weight_sum(k: &Kernel) -> u64 {
    k.weights.iter().copied().sum()
}

#[test]
fn exp_fixed_of_zero_is_one() {
    assert_eq!(exp_fixed(0, 5), SCALE);
    assert_eq!(exp_fixed(0, 2_000_000), SCALE);
}

#[test]
fn exp_fixed_of_one_is_inverse_e() {
    // A whole exponent of one decays by exactly the fixed-point 1/e step.
    assert_eq!(exp_fixed(7, 7), 367_879);
}

#[test]
fn exp_fixed_of_one_half_interpolates() {
    // Halfway into a unit the factor is halfway between one and 1/e:
    // 1_000_000 - floor(500_000 * 632_121 / 1_000_000).
    assert_eq!(exp_fixed(1, 2), 683_940);
}

#[test]
fn exp_fixed_monotone_across_unit_boundary() {
    // Just below a whole unit the interpolated factor has fallen to meet
    // the decay step, so the value never jumps up across the boundary.
    let below = exp_fixed(999_999, 1_000_000);
    let at = exp_fixed(1_000_000, 1_000_000);
    assert_eq!(below, 367_880);
    assert_eq!(at, 367_879);
    assert!(below >= at);
    let below2 = exp_fixed(1_999_999, 1_000_000);
    let at2 = exp_fixed(2_000_000, 1_000_000);
    assert!(below2 >= at2);
}

#[test]
fn gaussian_weights_monotone_in_distance() {
    // Farther cells never outweigh nearer ones, in particular across the
    // whole-exponent boundary between squared distances 25 and 26 for
    // sigma 3.6 on an 11x11 kernel.
    let size = 11usize;
    let raw = generate_gaussian_weight_kernel(size, 3_600);
    let c = size / 2;
    let d2 = |x: usize, y: usize| {
        let dx = x as i64 - c as i64;
        let dy = y as i64 - c as i64;
        (dx * dx + dy * dy) as u64
    };
    for y1 in 0..size {
        for x1 in 0..size {
            for y2 in 0..size {
                for x2 in 0..size {
                    if d2(x1, y1) <= d2(x2, y2) {
                        assert!(
                            raw[y2 * size + x2] <= raw[y1 * size + x1],
                            "({x1},{y1}) d2 {} vs ({x2},{y2}) d2 {}",
                            d2(x1, y1),
                            d2(x2, y2)
                        );
                    }
                }
            }
        }
    }
    // The two distances straddling the boundary, explicitly.
    assert!(raw[(c - 1) * size] <= raw[c * size]);
}

#[test]
fn gaussian_center_weight_is_full() {
    let raw = generate_gaussian_weight_kernel(5, 1_000_000);
    assert_eq!(raw.len(), 25);
    assert_eq!(raw[2 * 5 + 2], SCALE);
    for &w in &raw {
        assert!(w <= SCALE);
        assert!(w <= raw[2 * 5 + 2]);
    }
}

#[test]
fn kernel_weights_sum_to_one() {
    for (size, sigma_milli) in [(1, 1_000), (3, 500), (5, 1_000_000), (7, 2_500), (9, 50_000)] {
        let k = Kernel::build(size, sigma_milli);
        assert_eq!(weight_sum(&k), SCALE, "size {size} sigma_milli {sigma_milli}");
    }
}

#[test]
fn kernel_symmetric_under_half_turn() {
    for (size, sigma_milli) in [(3, 700), (5, 800_000), (7, 1_500)] {
        let k = Kernel::build(size, sigma_milli);
        for y in 0..size {
            for x in 0..size {
                assert_eq!(
                    k.weights[y * size + x],
                    k.weights[(size - 1 - y) * size + (size - 1 - x)],
                    "size {size} cell ({x},{y})"
                );
            }
        }
    }
}

#[test]
fn normalize_rejects_zero_sum() {
    let raw: Vec<u64> = vec![0; 9];
    assert_eq!(normalize_kernel(&raw, 3), Err(PipelineError::DegenerateKernel));
}

#[test]
fn normalize_equal_weights_puts_deficit_on_center() {
    let raw: Vec<u64> = vec![1; 9];
    let w = normalize_kernel(&raw, 3).unwrap();
    for (i, &v) in w.iter().enumerate() {
        if i == 4 {
            assert_eq!(v, 111_112);
        } else {
            assert_eq!(v, 111_111);
        }
    }
    assert_eq!(w.iter().copied().sum::<u64>(), SCALE);
}

#[test]
fn one_cell_kernel_is_identity() {
    // A 1x1 kernel holds the single full weight whatever the spread is.
    let k = Kernel::build(1, 42_000);
    assert_eq!(k.weights, vec![SCALE]);

    let mut frame = IntensityFrame {
        width: 3,
        height: 3,
        data: vec![9, 18, 27, 36, 45, 54, 63, 72, 81],
    };
    let values = convolve(&frame, &k);
    for (j, &v) in values.iter().enumerate() {
        assert_eq!(v, frame.data[j] as u64 * SCALE);
    }
    filter_frame(&mut frame, &k);
    assert_eq!(frame.data, vec![9, 18, 27, 36, 45, 54, 63, 72, 81]);
}

#[test]
fn uniform_frame_unchanged_at_interior() {
    // A 5x5 kernel with sigma 1000.0 over a uniform 10x10 frame of
    // intensity 200: every interior pixel comes back exactly 200.
    let k = Kernel::build(5, 1_000_000);
    let mut frame = IntensityFrame { width: 10, height: 10, data: vec![200; 100] };
    filter_frame(&mut frame, &k);
    for y in 0..10 {
        for x in 0..10 {
            let v = frame.data[y * 10 + x];
            if (2..8).contains(&x) && (2..8).contains(&y) {
                assert_eq!(v, 200, "interior pixel ({x},{y})");
            } else {
                assert!(v <= 200, "border pixel ({x},{y})");
            }
        }
    }
    // The corner sees a truncated kernel, so it comes out strictly darker.
    assert!(frame.data[0] < 200);
}

#[test]
fn near_equal_kernel_spreads_center_spike() {
    // A 3x3 kernel of (almost) equal weights over [[0,0,0],[0,9,0],[0,0,0]]:
    // the center output is the full spike folded through the nine weights,
    // which quantizes to intensity 1.
    let raw: Vec<u64> = vec![1; 9];
    let w = normalize_kernel(&raw, 3).unwrap();
    let k = Kernel { size: 3, weights: w };
    let frame = IntensityFrame { width: 3, height: 3, data: vec![0, 0, 0, 0, 9, 0, 0, 0, 0] };
    let values = convolve(&frame, &k);
    // Only the center sample is nonzero, so the center output is
    // 9 * center_weight = 9 * 111112.
    assert_eq!(values[4], 9 * 111_112);
    let mut filtered = frame;
    filter_frame(&mut filtered, &k);
    assert_eq!(filtered.data[4], 1);
}

#[test]
fn corner_pixel_sees_truncated_weights() {
    // On a uniform frame the corner output reveals the applied-weight sum:
    // with a near-equal 3x3 kernel only four cells are in bounds at the
    // corner, so the output is 100 * (3 * 111111 + 111112) / SCALE,
    // rounded: 44 instead of 100.
    let raw: Vec<u64> = vec![1; 9];
    let w = normalize_kernel(&raw, 3).unwrap();
    let k = Kernel { size: 3, weights: w };
    let frame = IntensityFrame { width: 3, height: 3, data: vec![100; 9] };
    let corner = convolve_pixel(&frame, 0, 0, &k);
    assert_eq!(corner, 100 * (3 * 111_111 + 111_112));
    assert!(corner < 100 * SCALE);
    let mut filtered = frame;
    filter_frame(&mut filtered, &k);
    assert_eq!(filtered.data[0], 44);
    assert_eq!(filtered.data[4], 100);
}

#[test]
fn tiny_sigma_concentrates_weight_on_center() {
    // A very small spread rounds every off-center raw weight to zero, so
    // the normalized kernel is a discrete delta and filtering is identity.
    let k = Kernel::build(3, 1);
    assert_eq!(k.weights[4], SCALE);
    let mut frame = IntensityFrame { width: 4, height: 2, data: vec![5, 10, 15, 20, 25, 30, 35, 40] };
    filter_frame(&mut frame, &k);
    assert_eq!(frame.data, vec![5, 10, 15, 20, 25, 30, 35, 40]);
}
