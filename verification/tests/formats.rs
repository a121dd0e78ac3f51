use raytracer::ppm::{decode_ppm_image_ascii, render_ppm_image_ascii};

#[test]
fn test_render_ppm_image_ascii() {
    let (w, h) = (256, 256);
    let mut pixels: Vec<(u8, u8, u8)> = Vec::new();
    for j in 0..256 {
        for i in 0..256 {
            let r = i as f64 / (w - 1) as f64;
            let g = j as f64 / (h - 1) as f64;
            let b = 0.0;
            pixels.push(((255.999 * r) as u8, (255.999 * g) as u8, (255.999 * b) as u8));
        }
    }
    let text = render_ppm_image_ascii(h, w, 255, &pixels);
    assert!(text.starts_with(b"P3\n256 256\n255\n"));
    let decoded = decode_ppm_image_ascii(&text).unwrap();
    assert_eq!(decoded.0, 256);
    assert_eq!(decoded.1, 256);
    assert_eq!(decoded.2, 255);
    assert_eq!(decoded.3, pixels);
}

#[test]
fn test_ppm_text_exact_bytes() {
    let pixels = vec![(1u8, 2u8, 3u8), (255u8, 0u8, 10u8)];
    let text = render_ppm_image_ascii(1, 2, 255, &pixels);
    assert_eq!(text, b"P3\n2 1\n255\n1 2 3\n255 0 10\n");
}

#[test]
fn test_ppm_round_trip_small() {
    let pixels = vec![(0u8, 0u8, 0u8), (12u8, 34u8, 56u8), (7u8, 200u8, 99u8), (255u8, 255u8, 255u8)];
    let text = render_ppm_image_ascii(2, 2, 255, &pixels);
    let (w, h, m, ps) = decode_ppm_image_ascii(&text).unwrap();
    assert_eq!((w, h, m), (2, 2, 255));
    assert_eq!(ps, pixels);
}

#[test]
fn test_ppm_empty_frame_round_trip() {
    let pixels: Vec<(u8, u8, u8)> = Vec::new();
    let text = render_ppm_image_ascii(0, 0, 255, &pixels);
    assert_eq!(text, b"P3\n0 0\n255\n");
    let (w, h, m, ps) = decode_ppm_image_ascii(&text).unwrap();
    assert_eq!((w, h, m), (0, 0, 255));
    assert!(ps.is_empty());
}

#[test]
fn test_ppm_decode_rejects_malformed_text() {
    assert!(decode_ppm_image_ascii(&b"".to_vec()).is_none());
    assert!(decode_ppm_image_ascii(&b"P3\n".to_vec()).is_none());
    assert!(decode_ppm_image_ascii(&b"P2\n1 1\n255\n1 2 3\n".to_vec()).is_none());
    assert!(decode_ppm_image_ascii(&b"P3\n1 1\n255\n1 2\n".to_vec()).is_none());
    assert!(decode_ppm_image_ascii(&b"P3\n1 1\n255\n1 2 300\n".to_vec()).is_none());
    assert!(decode_ppm_image_ascii(&b"P3\n1 1\n256\n1 2 3\n".to_vec()).is_none());
}
