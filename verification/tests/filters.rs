use photon_pipeline::ops::apply_pixel_op_scalar;
use photon_pipeline::spatial_ops::{
    convolve_3x3, convolve_3x3_channel, convolve_separable_3x3, div9_u16x8,
    restore_alpha_if_filter_zeroed_it,
};
use photon_pipeline::{PhotonImage, PixelOp, Pipeline, PlanarImage};

fn sample(width: u32, height: u32, opaque: bool) -> PlanarImage {
    let n = (width * height) as usize;
    let mut r = Vec::new();
    let mut g = Vec::new();
    let mut b = Vec::new();
    let mut a = Vec::new();
    for i in 0..n {
        r.push(((i * 37 + 11) % 256) as u8);
        g.push(((i * 91 + 200) % 256) as u8);
        b.push(((i * i * 13 + 7) % 256) as u8);
        a.push(if opaque { 255 } else { ((i * 53) % 256) as u8 });
    }
    PlanarImage::from_planes(r, g, b, a, width, height)
}

fn planes(img: &PlanarImage) -> [Vec<u8>; 4] {
    [img.r().clone(), img.g().clone(), img.b().clone(), img.a().clone()]
}

// Floating-point evaluation of a direct 3x3 filter, border pixels 0, and the
// alpha plane restored when the filter zeroed all of it.
fn reference_direct(img: &PlanarImage, kernel: [f32; 9]) -> [Vec<u8>; 4] {
    let w = img.width() as usize;
    let h = img.height() as usize;
    let src = planes(img);
    let mut out: [Vec<u8>; 4] = [
        vec![0; src[0].len()],
        vec![0; src[1].len()],
        vec![0; src[2].len()],
        vec![0; src[3].len()],
    ];
    if w >= 3 && h >= 3 {
        let sum: f32 = kernel.iter().sum();
        let divisor = if sum == 0.0 { 1.0 } else { sum };
        for c in 0..4 {
            for y in 1..h - 1 {
                for x in 1..w - 1 {
                    let mut value = 0.0f32;
                    for dy in 0..3 {
                        for dx in 0..3 {
                            let idx = (y + dy - 1) * w + (x + dx - 1);
                            value += src[c][idx] as f32 * kernel[dy * 3 + dx];
                        }
                    }
                    out[c][y * w + x] = (value / divisor).clamp(0.0, 255.0) as u8;
                }
            }
        }
    }
    if out[3].iter().all(|v| *v == 0) {
        for y in 0..h.saturating_sub(1) {
            for x in 0..w.saturating_sub(1) {
                out[3][y * w + x] = src[3][y * w + x];
            }
        }
    }
    out
}

fn outer(vertical: [f32; 3], horizontal: [f32; 3]) -> [f32; 9] {
    let mut k = [0.0f32; 9];
    for i in 0..3 {
        for j in 0..3 {
            k[i * 3 + j] = vertical[i] * horizontal[j];
        }
    }
    k
}

fn pipeline_of(img: PlanarImage) -> Pipeline {
    Pipeline::from_planar_image(img).unwrap()
}

fn check_direct(filter: fn(Pipeline) -> Pipeline, kernel: [f32; 9]) {
    for (w, h, opaque) in [(4, 4, true), (7, 5, false), (3, 3, true), (2, 6, false), (9, 9, false)] {
        let img = sample(w, h, opaque);
        let expected = reference_direct(&img, kernel);
        let got = filter(pipeline_of(img)).into_planar_image();
        assert_eq!(planes(&got), expected);
        assert_eq!(got.width(), w);
        assert_eq!(got.height(), h);
    }
}

#[test]
fn sharpen_matches_float_evaluation() {
    check_direct(Pipeline::sharpen, [0.0, -1.0, 0.0, -1.0, 5.0, -1.0, 0.0, -1.0, 0.0]);
}

#[test]
fn noise_reduction_matches_float_evaluation() {
    check_direct(Pipeline::noise_reduction, [0.0, -1.0, 7.0, -1.0, 5.0, 9.0, 0.0, 7.0, 9.0]);
}

#[test]
fn edge_detection_matches_float_evaluation() {
    check_direct(
        Pipeline::edge_detection,
        [-1.0, -1.0, -1.0, -1.0, 8.0, -1.0, -1.0, -1.0, -1.0],
    );
}

#[test]
fn line_detection_45_and_135_match_float_evaluation() {
    check_direct(
        Pipeline::detect_45_deg_lines,
        [-1.0, -1.0, 2.0, -1.0, 2.0, -1.0, 2.0, -1.0, -1.0],
    );
    check_direct(
        Pipeline::detect_135_deg_lines,
        [2.0, -1.0, -1.0, -1.0, 2.0, -1.0, -1.0, -1.0, 2.0],
    );
}

#[test]
fn laplace_and_emboss_match_float_evaluation() {
    check_direct(Pipeline::laplace, [0.0, -1.0, 0.0, -1.0, 4.0, -1.0, 0.0, -1.0, 0.0]);
    check_direct(Pipeline::emboss, [-2.0, -1.0, 0.0, -1.0, 1.0, 1.0, 0.0, 1.0, 2.0]);
}

#[test]
fn prewitt_horizontal_negative_divisor_matches_float_evaluation() {
    check_direct(
        Pipeline::prewitt_horizontal,
        [5.0, -3.0, -3.0, 5.0, 0.0, -3.0, 5.0, -3.0, -3.0],
    );
}

#[test]
fn separable_filters_match_float_evaluation() {
    check_direct(Pipeline::box_blur, outer([1.0, 1.0, 1.0], [1.0, 1.0, 1.0]));
    check_direct(Pipeline::detect_horizontal_lines, outer([-1.0, 2.0, -1.0], [1.0, 1.0, 1.0]));
    check_direct(Pipeline::detect_vertical_lines, outer([1.0, 1.0, 1.0], [-1.0, 2.0, -1.0]));
    check_direct(Pipeline::sobel_horizontal, outer([-1.0, 0.0, 1.0], [1.0, 2.0, 1.0]));
    check_direct(Pipeline::sobel_vertical, outer([1.0, 2.0, 1.0], [-1.0, 0.0, 1.0]));
}

#[test]
fn separable_pass_equals_direct_outer_kernel() {
    let img = sample(8, 6, false);
    let horizontal = [3, -2, 5];
    let vertical = [-4, 1, 2];
    let mut outer_kernel = [0i32; 9];
    for i in 0..3 {
        for j in 0..3 {
            outer_kernel[i * 3 + j] = vertical[i] * horizontal[j];
        }
    }
    let direct = pipeline_of(img.clone()).convolve_3x3(outer_kernel).into_planar_image();
    let separable = pipeline_of(img).convolve_separable_3x3(horizontal, vertical).into_planar_image();
    assert_eq!(planes(&direct), planes(&separable));
}

#[test]
fn sharpen_centre_pixel_exact_value() {
    let img = PlanarImage::from_planes(
        vec![1, 2, 3, 4, 50, 6, 7, 8, 9],
        vec![0; 9],
        vec![10, 10, 10, 10, 10, 10, 10, 10, 10],
        vec![9; 9],
        3,
        3,
    );
    let out = pipeline_of(img).sharpen().into_planar_image();
    // 5 * 50 - (2 + 4 + 6 + 8) = 230; borders become 0.
    assert_eq!(out.r(), &vec![0, 0, 0, 0, 230, 0, 0, 0, 0]);
    assert_eq!(out.g(), &vec![0; 9]);
    assert_eq!(out.b(), &vec![0, 0, 0, 0, 10, 0, 0, 0, 0]);
    // The filtered alpha is not all zero, so it is kept as filtered.
    assert_eq!(out.a(), &vec![0, 0, 0, 0, 9, 0, 0, 0, 0]);
}

#[test]
fn noise_reduction_divides_by_weight_sum() {
    let img = PlanarImage::from_planes(vec![70; 9], vec![200; 9], vec![0; 9], vec![255; 9], 3, 3);
    let out = pipeline_of(img).noise_reduction().into_planar_image();
    // A flat plane keeps its value when the weights sum to a positive divisor.
    assert_eq!(out.r()[4], 70);
    assert_eq!(out.g()[4], 200);
    assert_eq!(out.b()[4], 0);
}

#[test]
fn prewitt_horizontal_exact_values() {
    // The weights sum to 0, so the divisor is 1: the left column counts 5 times,
    // the other columns -3 times.
    let img = PlanarImage::from_planes(
        vec![10, 0, 0, 10, 0, 0, 10, 0, 0],
        vec![0, 10, 10, 0, 10, 10, 0, 10, 10],
        vec![0; 9],
        vec![255; 9],
        3,
        3,
    );
    let out = pipeline_of(img).prewitt_horizontal().into_planar_image();
    assert_eq!(out.r()[4], 150);
    assert_eq!(out.g()[4], 0);
}

#[test]
fn negative_weight_sum_divides_toward_positive() {
    // Weights sum to -2: a centre of 40 gives -80 / -2 = 40, and a positive
    // weighted sum over a negative divisor gives 0.
    let img = PlanarImage::from_planes(vec![40; 9], vec![0; 9], vec![7; 9], vec![255; 9], 3, 3);
    let out = pipeline_of(img.clone()).convolve_3x3([0, 0, 0, 0, -2, 0, 0, 0, 0]).into_planar_image();
    assert_eq!(out.r()[4], 40);
    assert_eq!(out.b()[4], 7);
    let out = pipeline_of(img).convolve_3x3([1, 1, 1, 1, -6, 1, 1, 1, -2]).into_planar_image();
    // These weights sum to -1: 40 * (7 - 6 - 2) = -40 -> 40; 7 * -1 = -7 -> 7.
    assert_eq!(out.r()[4], 40);
    assert_eq!(out.b()[4], 7);
    let bright = PlanarImage::from_planes(
        vec![100, 100, 100, 100, 0, 100, 100, 100, 100],
        vec![0; 9],
        vec![0; 9],
        vec![255; 9],
        3,
        3,
    );
    let out = pipeline_of(bright).convolve_3x3([1, 1, 1, 1, -6, 1, 1, 1, -2]).into_planar_image();
    // 100 * 6 - 200 = 400 over -1 is negative -> 0.
    assert_eq!(out.r()[4], 0);
}

#[test]
fn blur_3x3_zeroes_colour_and_keeps_alpha() {
    let img = sample(4, 3, false);
    let src_alpha = img.a().clone();
    let out = pipeline_of(img).blur_3x3().into_planar_image();
    assert_eq!(out.r(), &vec![0; 12]);
    assert_eq!(out.g(), &vec![0; 12]);
    assert_eq!(out.b(), &vec![0; 12]);
    assert_eq!(out.a(), &src_alpha);
    assert_eq!((out.width(), out.height()), (4, 3));
}

#[test]
fn blur_3x3_keeps_alpha_of_tiny_image() {
    let img = PlanarImage::from_planes(vec![5; 4], vec![6; 4], vec![7; 4], vec![1, 2, 3, 4], 2, 2);
    let out = pipeline_of(img).blur_3x3().into_planar_image();
    assert_eq!(out.r(), &vec![0; 4]);
    assert_eq!(out.a(), &vec![1, 2, 3, 4]);
}

#[test]
fn tiny_image_filters_to_restored_alpha_only() {
    let img = PlanarImage::from_planes(vec![5; 4], vec![6; 4], vec![7; 4], vec![8, 9, 10, 11], 2, 2);
    let out = pipeline_of(img).sharpen().into_planar_image();
    assert_eq!(out.r(), &vec![0; 4]);
    assert_eq!(out.a(), &vec![8, 0, 0, 0]);
}

#[test]
fn convolve_into_existing_buffer() {
    let img = sample(5, 4, true);
    let mut dst = PlanarImage::from_planes(vec![1; 20], vec![2; 20], vec![3; 20], vec![4; 20], 0, 0);
    convolve_3x3(&img, &mut dst, [0, -1, 0, -1, 5, -1, 0, -1, 0]);
    let expected = reference_direct(&img, [0.0, -1.0, 0.0, -1.0, 5.0, -1.0, 0.0, -1.0, 0.0]);
    assert_eq!(planes(&dst), expected);
    // The destination keeps its own dimensions.
    assert_eq!((dst.width(), dst.height()), (0, 0));

    let mut dst2 = PlanarImage::from_planes(vec![1; 20], vec![2; 20], vec![3; 20], vec![4; 20], 0, 0);
    let mut scratch = vec![0i32; 20];
    convolve_separable_3x3(&img, &mut dst2, &mut scratch, [1, 2, 1], [-1, 0, 1]);
    let expected2 = reference_direct(&img, outer([-1.0, 0.0, 1.0], [1.0, 2.0, 1.0]));
    assert_eq!(planes(&dst2), expected2);
}

#[test]
fn restore_alpha_only_when_all_zero() {
    let src = PlanarImage::from_planes(vec![0; 6], vec![0; 6], vec![0; 6], vec![1, 2, 3, 4, 5, 6], 3, 2);
    let mut dst = PlanarImage::from_planes(vec![0; 6], vec![0; 6], vec![0; 6], vec![0; 6], 3, 2);
    restore_alpha_if_filter_zeroed_it(&src, &mut dst, 3, 2);
    assert_eq!(dst.a(), &vec![1, 2, 0, 0, 0, 0]);

    let mut kept = PlanarImage::from_planes(vec![0; 6], vec![0; 6], vec![0; 6], vec![0, 0, 0, 0, 0, 7], 3, 2);
    restore_alpha_if_filter_zeroed_it(&src, &mut kept, 3, 2);
    assert_eq!(kept.a(), &vec![0, 0, 0, 0, 0, 7]);
}

#[test]
fn identity_changes_nothing() {
    let img = sample(3, 3, false);
    let before = planes(&img);
    let out = pipeline_of(img).identity().into_planar_image();
    assert_eq!(planes(&out), before);
}

#[test]
fn pixel_op_formulas() {
    let (mut r, mut g, mut b) = (10u8, 20u8, 31u8);
    apply_pixel_op_scalar(&PixelOp::GrayScale, &mut r, &mut g, &mut b);
    assert_eq!((r, g, b), (20, 20, 20));

    let (mut r, mut g, mut b) = (200u8, 250u8, 251u8);
    apply_pixel_op_scalar(
        &PixelOp::Monochrome { r_offset: 0, g_offset: 20, b_offset: 100 },
        &mut r,
        &mut g,
        &mut b,
    );
    assert_eq!((r, g, b), (233, 253, 255));

    let (mut r, mut g, mut b) = (0u8, 128u8, 255u8);
    apply_pixel_op_scalar(&PixelOp::Invert, &mut r, &mut g, &mut b);
    assert_eq!((r, g, b), (255, 127, 0));

    let (mut r, mut g, mut b) = (250u8, 10u8, 100u8);
    apply_pixel_op_scalar(&PixelOp::AlterChannels { r: 10, g: -20, b: 300 }, &mut r, &mut g, &mut b);
    assert_eq!((r, g, b), (255, 0, 255));
}

#[test]
fn invert_twice_is_identity() {
    let img = sample(5, 3, false);
    let before = planes(&img);
    let out = pipeline_of(img).invert().invert().into_planar_image();
    assert_eq!(planes(&out), before);
}

#[test]
fn gray_scale_is_idempotent_and_equalises_channels() {
    let once = pipeline_of(sample(5, 3, false)).gray_scale().into_planar_image();
    let twice = pipeline_of(sample(5, 3, false)).gray_scale().gray_scale().into_planar_image();
    assert_eq!(planes(&once), planes(&twice));
    assert_eq!(once.r(), once.g());
    assert_eq!(once.g(), once.b());
}

#[test]
fn monochrome_without_offsets_is_gray_scale() {
    let gray = pipeline_of(sample(4, 4, true)).gray_scale().into_planar_image();
    let mono = pipeline_of(sample(4, 4, true)).monochrome(0, 0, 0).into_planar_image();
    assert_eq!(planes(&gray), planes(&mono));
}

#[test]
fn alter_channels_by_zero_is_identity() {
    let before = planes(&sample(4, 4, false));
    let out = pipeline_of(sample(4, 4, false)).alter_channels(0, 0, 0).into_planar_image();
    assert_eq!(planes(&out), before);
}

#[test]
fn colour_ops_keep_alpha() {
    let img = sample(4, 2, false);
    let alpha = img.a().clone();
    let out = pipeline_of(img).gray_scale().monochrome(3, 4, 5).invert().alter_channels(-9, 9, 0)
        .into_planar_image();
    assert_eq!(out.a(), &alpha);
}

#[test]
fn swap_channels_twice_and_symmetric() {
    let before = planes(&sample(4, 3, false));
    let twice = pipeline_of(sample(4, 3, false)).swap_channels(1, 2).swap_channels(1, 2).into_planar_image();
    assert_eq!(planes(&twice), before);
    let ab = pipeline_of(sample(4, 3, false)).swap_channels(0, 1).into_planar_image();
    let ba = pipeline_of(sample(4, 3, false)).swap_channels(1, 0).into_planar_image();
    assert_eq!(planes(&ab), planes(&ba));
    assert_eq!(ab.r(), &before[1]);
    assert_eq!(ab.g(), &before[0]);
    let same = pipeline_of(sample(4, 3, false)).swap_channels(2, 2).into_planar_image();
    assert_eq!(planes(&same), before);
}

#[test]
fn photon_planar_roundtrip() {
    let raw: Vec<u8> = (0..24u32).map(|i| (i * 7 % 256) as u8).collect();
    let img = PhotonImage::new(raw.clone(), 3, 2);
    let planar = PlanarImage::from_photon_image(&img);
    assert_eq!(planar.r(), &vec![0, 28, 56, 84, 112, 140]);
    assert_eq!(planar.a(), &vec![21, 49, 77, 105, 133, 161]);
    let back = planar.to_photon_image();
    assert_eq!(back.get_raw_pixels(), raw);
    assert_eq!(back.get_width(), 3);
    assert_eq!(back.get_height(), 2);
    let finished = Pipeline::from_photon_image(&img).finish();
    assert_eq!(finished.get_raw_pixels(), raw);
}

#[test]
fn partial_trailing_pixel_is_dropped_and_extra_pixels_are_not_interleaved() {
    let img = PhotonImage::new(vec![1, 2, 3, 4, 5, 6, 7, 8, 9, 10], 1, 1);
    let planar = PlanarImage::from_photon_image(&img);
    assert_eq!(planar.r(), &vec![1, 5]);
    assert_eq!(planar.g(), &vec![2, 6]);
    assert_eq!(planar.to_photon_image().get_raw_pixels(), vec![1, 2, 3, 4]);
}

#[test]
fn pending_ops_run_before_a_filter() {
    let img = sample(5, 5, true);
    let fused = pipeline_of(img.clone()).invert().sharpen().into_planar_image();
    let inverted = pipeline_of(img).invert().into_planar_image();
    let step = pipeline_of(inverted).sharpen().into_planar_image();
    assert_eq!(planes(&fused), planes(&step));
}

#[test]
fn div9_fixed_point_is_exact() {
    assert_eq!(
        div9_u16x8([0, 8, 9, 17, 18, 2294, 2295, 1000]),
        [0, 0, 1, 1, 2, 254, 255, 111]
    );
    for start in (0..2296u16).step_by(8) {
        let mut lanes = [0u16; 8];
        for j in 0..8 {
            lanes[j] = (start + j as u16).min(2295);
        }
        let out = div9_u16x8(lanes);
        for j in 0..8 {
            assert_eq!(out[j], lanes[j] / 9);
        }
    }
}

#[test]
fn convolve_channel_keeps_border_of_destination() {
    let src = vec![10u8; 9];
    let mut dst = vec![7u8; 9];
    convolve_3x3_channel(&src, &mut dst, 3, 3, [0, 0, 0, 0, 2, 0, 0, 0, 0]);
    assert_eq!(dst, vec![7, 7, 7, 7, 10, 7, 7, 7, 7]);
}

#[test]
fn large_integer_weights_match_float_evaluation() {
    let kernel = [100, -250, 7225, 7, -7225, 3000, -1, 0, 55];
    let mut float_kernel = [0.0f32; 9];
    for i in 0..9 {
        float_kernel[i] = kernel[i] as f32;
    }
    for (w, h, opaque) in [(6, 5, false), (4, 4, true)] {
        let img = sample(w, h, opaque);
        let expected = reference_direct(&img, float_kernel);
        let got = pipeline_of(img).convolve_3x3(kernel).into_planar_image();
        assert_eq!(planes(&got), expected);
    }
}

#[test]
fn tiny_image_ignores_the_kernel() {
    let raw = vec![1, 2, 3, 4, 5, 6, 7, 8, 9, 10, 11, 12, 13, 14, 15, 16];
    let img = PhotonImage::new(raw, 2, 2);
    let out = Pipeline::from_photon_image(&img)
        .convolve_3x3([1_000_000, -7, 3, 2_000_000_000, 0, 0, 0, 0, -1])
        .finish();
    assert_eq!(out.get_raw_pixels(), vec![0, 0, 0, 4, 0, 0, 0, 0, 0, 0, 0, 0, 0, 0, 0, 0]);
}

#[test]
fn separable_taps_at_the_bound_equal_direct_outer_kernel() {
    let img = sample(7, 6, false);
    let horizontal = [85, -85, 85];
    let vertical = [-85, 1, 85];
    let mut outer_kernel = [0i32; 9];
    for i in 0..3 {
        for j in 0..3 {
            outer_kernel[i * 3 + j] = vertical[i] * horizontal[j];
        }
    }
    let direct = pipeline_of(img.clone()).convolve_3x3(outer_kernel).into_planar_image();
    let separable = pipeline_of(img).convolve_separable_3x3(horizontal, vertical).into_planar_image();
    assert_eq!(planes(&direct), planes(&separable));
}

#[test]
fn channel_filters_planes_of_different_lengths() {
    let src = vec![10u8; 12];
    let mut dst = vec![7u8; 9];
    convolve_3x3_channel(&src, &mut dst, 3, 3, [0, 0, 0, 0, 2, 0, 0, 0, 0]);
    assert_eq!(dst, vec![7, 7, 7, 7, 10, 7, 7, 7, 7]);
    let mut longer = vec![7u8; 14];
    convolve_3x3_channel(&src[..9].to_vec(), &mut longer, 3, 3, [0, 1, 0, 0, 0, 0, 0, 0, 0]);
    assert_eq!(longer, vec![7, 7, 7, 7, 10, 7, 7, 7, 7, 7, 7, 7, 7, 7]);
}

// Floating-point evaluation of a separable filter in two passes, as the
// float-kernel pipeline runs it: row sums first, then the column pass.
fn reference_separable(img: &PlanarImage, horizontal: [f32; 3], vertical: [f32; 3]) -> [Vec<u8>; 4] {
    let w = img.width() as usize;
    let h = img.height() as usize;
    let src = planes(img);
    let mut out: [Vec<u8>; 4] = [
        vec![0; src[0].len()],
        vec![0; src[1].len()],
        vec![0; src[2].len()],
        vec![0; src[3].len()],
    ];
    let product = horizontal.iter().sum::<f32>() * vertical.iter().sum::<f32>();
    let divisor = if product == 0.0 { 1.0 } else { product };
    for c in 0..4 {
        let mut scratch = vec![0.0f32; w * h];
        for y in 0..h {
            for x in 1..w - 1 {
                let i = y * w + x;
                scratch[i] = src[c][i - 1] as f32 * horizontal[0]
                    + src[c][i] as f32 * horizontal[1]
                    + src[c][i + 1] as f32 * horizontal[2];
            }
        }
        for y in 1..h - 1 {
            for x in 1..w - 1 {
                let value = scratch[(y - 1) * w + x] * vertical[0]
                    + scratch[y * w + x] * vertical[1]
                    + scratch[(y + 1) * w + x] * vertical[2];
                out[c][y * w + x] = (value / divisor).clamp(0.0, 255.0) as u8;
            }
        }
    }
    if out[3].iter().all(|v| *v == 0) {
        for y in 0..h - 1 {
            for x in 0..w - 1 {
                out[3][y * w + x] = src[3][y * w + x];
            }
        }
    }
    out
}

#[test]
fn separable_taps_at_the_bound_match_float_evaluation() {
    let cases: [([i32; 3], [i32; 3]); 3] = [
        ([85, -85, 85], [-85, 1, 85]),
        ([85, 85, 85], [85, 85, 85]),
        ([-85, 84, -3], [17, -85, 85]),
    ];
    for (horizontal, vertical) in cases {
        let fh = [horizontal[0] as f32, horizontal[1] as f32, horizontal[2] as f32];
        let fv = [vertical[0] as f32, vertical[1] as f32, vertical[2] as f32];
        for (w, h, opaque) in [(7, 6, false), (5, 5, true)] {
            let img = sample(w, h, opaque);
            let expected = reference_separable(&img, fh, fv);
            let got = pipeline_of(img).convolve_separable_3x3(horizontal, vertical).into_planar_image();
            assert_eq!(planes(&got), expected);
        }
    }
}

#[test]
fn filter_reads_the_image_that_pending_operations_produce() {
    let mut raw = Vec::new();
    for i in 0..(6 * 5 * 4) {
        raw.push(((i * 29 + 3) % 256) as u8);
    }
    let img = PhotonImage::new(raw, 6, 5);
    let kernel = [1, -2, 3, 0, 5, 1, -1, 2, 4];
    let queued = || Pipeline::from_photon_image(&img).gray_scale().invert().alter_channels(40, -20, 7);
    let filtered = queued().convolve_3x3(kernel).finish();
    let finished = queued().finish();
    let refiltered = Pipeline::from_photon_image(&finished).convolve_3x3(kernel).finish();
    assert_eq!(filtered.get_raw_pixels(), refiltered.get_raw_pixels());
    assert_eq!(filtered.get_width(), 6);
    assert_eq!(filtered.get_height(), 5);
}

#[test]
fn alter_channels_accepts_a_large_shift_on_dark_pixels() {
    let img = PhotonImage::new(vec![0, 10, 200, 255, 0, 0, 0, 9], 2, 1);
    let out = Pipeline::from_photon_image(&img).alter_channels(32767, 100, -32768).finish();
    assert_eq!(out.get_raw_pixels(), vec![255, 110, 0, 255, 255, 100, 0, 9]);
}
