use image_processor::blur::{blur_image, process_image, ImageConfig};
use image_processor::plugin::{STATUS_BAD_PARAMS, STATUS_OK};

#[test]
fn test_blur_monotone_buffer() {
    let mut buffer = vec![128u8; 3 * 3 * 4];
    let expected_backup = buffer.clone();

    let config = ImageConfig { radius: 1, iterations: 1 };
    blur_image(3, 3, &mut buffer, config).unwrap();

    assert_eq!(buffer, expected_backup);
}

#[test]
fn test_blur_center_pixel() {
    let mut buffer = vec![
        0, 0, 0, 255, 0, 0, 0, 255, 0, 0, 0, 255, //
        0, 0, 0, 255, 255, 255, 255, 255, 0, 0, 0, 255, //
        0, 0, 0, 255, 0, 0, 0, 255, 0, 0, 0, 255,
    ];

    let config = ImageConfig { radius: 1, iterations: 1 };
    blur_image(3, 3, &mut buffer, config).unwrap();

    assert!(buffer[0 * 4] > 0, "top left pixel stayed black after the blur");
    assert!(buffer[1 * 4] > 0, "top middle pixel stayed black after the blur");
    assert!(buffer[3 * 4] > 0, "middle left pixel stayed black after the blur");
    assert!(buffer[5 * 4] > 0, "middle right pixel stayed black after the blur");

    assert!(buffer[4 * 4] < 255, "centre pixel gave no brightness to its neighbours");
}

fn grey_row(values: &[u8]) -> Vec<u8> {
    let mut out = Vec::new();
    for &v in values {
        out.extend_from_slice(&[v, v, v, 255]);
    }
    out
}

#[test]
fn blur_row_means_are_floored_window_means() {
    // Windows of radius 1 clipped at the ends: {0, 90}, {0, 90, 180}, {90, 180}.
    let mut buffer = grey_row(&[0, 90, 180]);
    blur_image(3, 1, &mut buffer, ImageConfig { radius: 1, iterations: 1 }).unwrap();
    assert_eq!(buffer, grey_row(&[45, 90, 135]));
}

#[test]
fn blur_second_round_reads_the_first_round() {
    let mut buffer = grey_row(&[0, 90, 180]);
    blur_image(3, 1, &mut buffer, ImageConfig { radius: 1, iterations: 2 }).unwrap();
    // (45 + 90) / 2, (45 + 90 + 135) / 3, (90 + 135) / 2, floored
    assert_eq!(buffer, grey_row(&[67, 90, 112]));
}

#[test]
fn blur_rounds_run_both_passes() {
    // A one pixel wide column: each round's vertical pass blurs it again.
    // [0, 0, 255] -> [0, 85, 127] -> [42, 70, 106]
    let mut one = grey_row(&[0, 0, 255]);
    blur_image(1, 3, &mut one, ImageConfig { radius: 1, iterations: 1 }).unwrap();
    assert_eq!(one, grey_row(&[0, 85, 127]));
    let mut two = grey_row(&[0, 0, 255]);
    blur_image(1, 3, &mut two, ImageConfig { radius: 1, iterations: 2 }).unwrap();
    assert_eq!(two, grey_row(&[42, 70, 106]));
}

#[test]
fn blur_rounds_compose() {
    let mut start = Vec::new();
    for i in 0..12u32 {
        start.extend_from_slice(&[(i * 41 % 256) as u8, (i * 67 % 256) as u8, (i * 5) as u8, 255]);
    }
    for n in 0..4u32 {
        let mut all_at_once = start.clone();
        blur_image(4, 3, &mut all_at_once, ImageConfig { radius: 1, iterations: n + 1 }).unwrap();
        let mut one_more = start.clone();
        blur_image(4, 3, &mut one_more, ImageConfig { radius: 1, iterations: n }).unwrap();
        blur_image(4, 3, &mut one_more, ImageConfig { radius: 1, iterations: 1 }).unwrap();
        assert_eq!(all_at_once, one_more);
    }
}

#[test]
fn blur_channels_are_independent() {
    let mut a = grey_row(&[0, 90, 180, 30, 60, 255]);
    let mut b = a.clone();
    for p in b.chunks_mut(4) {
        p[1] = 255 - p[1];
        p[2] = 17;
    }
    let config = ImageConfig { radius: 2, iterations: 2 };
    blur_image(3, 2, &mut a, config).unwrap();
    blur_image(3, 2, &mut b, config).unwrap();
    for (pa, pb) in a.chunks(4).zip(b.chunks(4)) {
        assert_eq!(pa[0], pb[0]);
        assert_eq!(pa[3], pb[3]);
    }
}

#[test]
fn blur_that_does_nothing_takes_any_buffer() {
    let mut empty: Vec<u8> = Vec::new();
    blur_image(100, 100, &mut empty, ImageConfig { radius: 0, iterations: 3 }).unwrap();
    blur_image(100, 100, &mut empty, ImageConfig { radius: 3, iterations: 0 }).unwrap();
    assert!(empty.is_empty());
}

#[test]
fn blur_radius_larger_than_image() {
    let mut buffer = grey_row(&[10, 20, 40, 50]);
    blur_image(4, 1, &mut buffer, ImageConfig { radius: 1000, iterations: 1 }).unwrap();
    assert_eq!(buffer, grey_row(&[30, 30, 30, 30]));
}

#[test]
fn blur_without_radius_or_rounds_changes_nothing() {
    let before = grey_row(&[0, 90, 180, 7]);
    let mut a = before.clone();
    blur_image(2, 2, &mut a, ImageConfig { radius: 0, iterations: 3 }).unwrap();
    assert_eq!(a, before);
    let mut b = before.clone();
    blur_image(2, 2, &mut b, ImageConfig { radius: 2, iterations: 0 }).unwrap();
    assert_eq!(b, before);
    let mut c = before.clone();
    blur_image(0, 2, &mut c, ImageConfig { radius: 2, iterations: 2 }).unwrap();
    assert_eq!(c, before);
}

#[test]
fn blur_leaves_bytes_after_the_image() {
    let mut buffer = grey_row(&[0, 90, 180]);
    buffer.extend_from_slice(&[1, 2, 3]);
    blur_image(3, 1, &mut buffer, ImageConfig { radius: 1, iterations: 1 }).unwrap();
    let mut expected = grey_row(&[45, 90, 135]);
    expected.extend_from_slice(&[1, 2, 3]);
    assert_eq!(buffer, expected);
}

#[test]
fn blur_keeps_channel_range_and_flat_alpha() {
    let mut buffer = Vec::new();
    for i in 0..20u32 {
        buffer.extend_from_slice(&[(i * 37 % 200 + 20) as u8, (i * 11 % 50 + 100) as u8, 7, 200]);
    }
    blur_image(5, 4, &mut buffer, ImageConfig { radius: 2, iterations: 3 }).unwrap();
    for p in buffer.chunks(4) {
        assert!(p[0] >= 20 && p[0] <= 219);
        assert!(p[1] >= 100 && p[1] <= 149);
        assert_eq!(p[2], 7);
        assert_eq!(p[3], 200);
    }
}

#[test]
fn blur_process_image_status() {
    let before = grey_row(&[0, 90, 180]);
    let mut a = before.clone();
    assert_eq!(process_image(3, 1, &mut a, None), STATUS_BAD_PARAMS);
    assert_eq!(a, before);
    let mut b = before.clone();
    assert_eq!(process_image(3, 1, &mut b, Some(ImageConfig { radius: 1, iterations: 1 })), STATUS_OK);
    assert_eq!(b, grey_row(&[45, 90, 135]));
}

#[test]
fn blur_default_config_is_a_no_op() {
    let config = ImageConfig::default();
    assert_eq!(config, ImageConfig { radius: 0, iterations: 0 });
    let before = grey_row(&[3, 1, 4, 1]);
    let mut buffer = before.clone();
    blur_image(2, 2, &mut buffer, config).unwrap();
    assert_eq!(buffer, before);
}
