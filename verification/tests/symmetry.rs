use image_processor::blur::{self, blur_image};
use image_processor::mirror::{self, mirror_image};

fn sample_image(w: usize, h: usize) -> Vec<u8> {
    let mut out = Vec::new();
    for p in 0..w * h {
        let p = p as u32;
        out.extend_from_slice(&[
            (p * 53 % 256) as u8,
            (p * 97 % 256) as u8,
            (p * 13 % 256) as u8,
            (255 - p * 7 % 64) as u8,
        ]);
    }
    out
}

#[test]
fn blur_and_mirror_commute() {
    let (w, h) = (5, 3);
    let blur_cfg = blur::ImageConfig { radius: 1, iterations: 2 };
    for (horizontal, vertical) in [(true, false), (false, true), (true, true)] {
        let mirror_cfg = mirror::ImageConfig { horizontal, vertical };

        let mut blur_first = sample_image(w, h);
        blur_image(w, h, &mut blur_first, blur_cfg).unwrap();
        mirror_image(w, h, &mut blur_first, mirror_cfg);

        let mut mirror_first = sample_image(w, h);
        mirror_image(w, h, &mut mirror_first, mirror_cfg);
        blur_image(w, h, &mut mirror_first, blur_cfg).unwrap();

        assert_eq!(blur_first, mirror_first);
    }
}
