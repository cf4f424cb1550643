use mandelbrot_rs::color::Rgb;
use mandelbrot_rs::encode_ppm;
use mandelbrot_rs::parse_ppm_header;

#[test]
fn header_bytes_are_exact() {
    let data = vec![0u32; 8];
    let out = encode_ppm(&data, 4, 2);
    assert_eq!(&out[..11], &b"P6 4 2 255 "[..]);
    assert_eq!(out.len(), 11 + 8 * 3);
}

#[test]
fn header_with_multi_digit_dimensions() {
    let data = vec![0u32; 1920 * 2];
    let out = encode_ppm(&data, 1920, 2);
    assert_eq!(&out[..14], &b"P6 1920 2 255 "[..]);
}

#[test]
fn payload_is_red_green_blue() {
    let data = vec![0x0011_2233u32];
    let out = encode_ppm(&data, 1, 1);
    assert_eq!(&out[out.len() - 3..], &[0x11u8, 0x22, 0x33][..]);
    let white = vec![Rgb(255, 255, 255).packed()];
    let out = encode_ppm(&white, 1, 1);
    assert_eq!(&out[out.len() - 3..], &[255u8, 255, 255][..]);
}

#[test]
fn header_round_trip() {
    let data = vec![0x00AA_BB00u32; 8];
    let out = encode_ppm(&data, 4, 2);
    assert_eq!(parse_ppm_header(&out), Some((4, 2, 255)));
    let wide = vec![0u32; 1920];
    let out = encode_ppm(&wide, 640, 3);
    assert_eq!(parse_ppm_header(&out), Some((640, 3, 255)));
}

#[test]
fn parser_accepts_newline_separators() {
    assert_eq!(parse_ppm_header(b"P6\n17\n9\n255\n"), Some((17, 9, 255)));
}

#[test]
fn parser_rejects_malformed_headers() {
    assert_eq!(parse_ppm_header(b""), None);
    assert_eq!(parse_ppm_header(b"P5 4 2 255 "), None);
    assert_eq!(parse_ppm_header(b"P6 "), None);
    assert_eq!(parse_ppm_header(b"P6 4"), None);
    assert_eq!(parse_ppm_header(b"P6 4 2 255"), None);
    assert_eq!(parse_ppm_header(b"P6 x 2 255 "), None);
    assert_eq!(parse_ppm_header(b"P6,4 2 255 "), None);
}

#[test]
fn parser_rejects_numbers_beyond_the_limit() {
    assert_eq!(parse_ppm_header(b"P6 99999999999999 2 255 "), None);
    assert_eq!(parse_ppm_header(b"P6 16777217 2 255 "), None);
    assert_eq!(parse_ppm_header(b"P6 16777216 2 255 "), Some((16777216, 2, 255)));
}
