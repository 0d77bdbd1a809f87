use image_processor::mirror::{mirror_image, process_image, ImageConfig};
use image_processor::plugin::{STATUS_BAD_PARAMS, STATUS_FAILED, STATUS_OK};

fn create_test_buffer_2x2() -> Vec<u8> {
    vec![1, 1, 1, 255, 2, 2, 2, 255, 3, 3, 3, 255, 4, 4, 4, 255]
}

#[test]
fn test_flip_horizontal_2x2() {
    let mut buffer = create_test_buffer_2x2();
    let config = ImageConfig { horizontal: true, vertical: false };

    mirror_image(2, 2, &mut buffer, config);

    let expected = vec![2, 2, 2, 255, 1, 1, 1, 255, 4, 4, 4, 255, 3, 3, 3, 255];

    assert_eq!(buffer, expected);
}

#[test]
fn test_flip_vertical_2x2() {
    let mut buffer = create_test_buffer_2x2();
    let config = ImageConfig { horizontal: false, vertical: true };

    mirror_image(2, 2, &mut buffer, config);

    let expected = vec![3, 3, 3, 255, 4, 4, 4, 255, 1, 1, 1, 255, 2, 2, 2, 255];

    assert_eq!(buffer, expected);
}

#[test]
fn test_flip_both_horizontal_and_vertical_2x2() {
    let mut buffer = create_test_buffer_2x2();
    let config = ImageConfig { horizontal: true, vertical: true };

    mirror_image(2, 2, &mut buffer, config);

    let expected = vec![4, 4, 4, 255, 3, 3, 3, 255, 2, 2, 2, 255, 1, 1, 1, 255];

    assert_eq!(buffer, expected);
}

#[test]
fn test_flip_nothing_2x2() {
    let mut buffer = create_test_buffer_2x2();
    let config = ImageConfig { horizontal: false, vertical: false };

    mirror_image(2, 2, &mut buffer, config);

    let expected = vec![1, 1, 1, 255, 2, 2, 2, 255, 3, 3, 3, 255, 4, 4, 4, 255];

    assert_eq!(buffer, expected);
}

fn numbered(w: usize, h: usize) -> Vec<u8> {
    let mut out = Vec::new();
    for p in 0..w * h {
        let v = p as u8;
        out.extend_from_slice(&[v, v + 100, 0, 255]);
    }
    out
}

#[test]
fn mirror_odd_width_keeps_middle_column() {
    let mut buffer = numbered(3, 2);
    mirror_image(3, 2, &mut buffer, ImageConfig { horizontal: true, vertical: false });
    let order: Vec<u8> = buffer.chunks(4).map(|p| p[0]).collect();
    assert_eq!(order, vec![2, 1, 0, 5, 4, 3]);
}

#[test]
fn mirror_odd_height_keeps_middle_row() {
    let mut buffer = numbered(2, 3);
    mirror_image(2, 3, &mut buffer, ImageConfig { horizontal: false, vertical: true });
    let order: Vec<u8> = buffer.chunks(4).map(|p| p[0]).collect();
    assert_eq!(order, vec![4, 5, 2, 3, 0, 1]);
}

#[test]
fn mirror_twice_gives_back_the_image() {
    for (h, v) in [(true, false), (false, true), (true, true)] {
        let before = numbered(3, 4);
        let mut buffer = before.clone();
        let config = ImageConfig { horizontal: h, vertical: v };
        mirror_image(3, 4, &mut buffer, config);
        assert_ne!(buffer, before);
        mirror_image(3, 4, &mut buffer, config);
        assert_eq!(buffer, before);
    }
}

#[test]
fn mirror_leaves_bytes_after_the_image() {
    let mut buffer = create_test_buffer_2x2();
    buffer.extend_from_slice(&[9, 8, 7]);
    mirror_image(2, 2, &mut buffer, ImageConfig { horizontal: true, vertical: true });
    assert_eq!(&buffer[16..], &[9, 8, 7]);
    assert_eq!(&buffer[..4], &[4, 4, 4, 255]);
}

#[test]
fn mirror_process_image_status() {
    let before = create_test_buffer_2x2();

    let mut a = before.clone();
    assert_eq!(process_image(2, 2, &mut a, None), STATUS_BAD_PARAMS);
    assert_eq!(a, before);

    let mut b = before.clone();
    let horizontal = ImageConfig { horizontal: true, vertical: false };
    assert_eq!(process_image(0, 2, &mut b, Some(horizontal)), STATUS_FAILED);
    assert_eq!(b, before);

    let vertical = ImageConfig { horizontal: false, vertical: true };
    assert_eq!(process_image(2, 0, &mut b, Some(vertical)), STATUS_FAILED);
    assert_eq!(b, before);

    // A horizontal mirror of an image without rows runs and changes nothing.
    assert_eq!(process_image(2, 0, &mut b, Some(horizontal)), STATUS_OK);
    assert_eq!(b, before);

    assert_eq!(process_image(2, 2, &mut b, Some(horizontal)), STATUS_OK);
    assert_eq!(b, vec![2, 2, 2, 255, 1, 1, 1, 255, 4, 4, 4, 255, 3, 3, 3, 255]);
}

#[test]
fn mirror_default_config_is_a_no_op() {
    let config = ImageConfig::default();
    assert_eq!(config, ImageConfig { horizontal: false, vertical: false });
}

#[test]
fn mirror_without_flip_takes_any_buffer() {
    let mut short = vec![1, 2, 3];
    mirror_image(10, 10, &mut short, ImageConfig { horizontal: false, vertical: false });
    assert_eq!(short, vec![1, 2, 3]);
}
