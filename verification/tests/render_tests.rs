use mandelbrot_rs::color::stretch;
use mandelbrot_rs::color::Rgb;
use mandelbrot_rs::lsm;
use mandelbrot_rs::render;
use mandelbrot_rs::render_serial;
use mandelbrot_rs::Params;
use mandelbrot_rs::SCALE;

fn classic_viewport(width: usize, height: usize, max_iter: u32) -> Params {
    Params {
        width,
        height,
        xmax: SCALE,
        xmin: -5 * SCALE / 2,
        ymax: SCALE,
        ymin: -SCALE,
        max_iter,
    }
}

#[test]
fn parallel_and_serial_render_identically() {
    let params = classic_viewport(16, 8, 50);
    let anchors = vec![Rgb(0, 0, 0), Rgb(120, 119, 238), Rgb(24, 7, 25)];
    let palette = stretch(8, &anchors);
    let mut parallel = vec![0u32; 16 * 8];
    let mut serial = vec![7u32; 16 * 8];
    render(&mut parallel, params, &palette);
    render_serial(&mut serial, params, &palette);
    assert_eq!(parallel, serial);
}

#[test]
fn render_matches_pixelwise_recomputation() {
    let params = classic_viewport(8, 4, 30);
    let anchors = vec![Rgb(200, 10, 10), Rgb(10, 200, 10), Rgb(10, 10, 200)];
    let palette = stretch(2, &anchors);
    let mut buffer = vec![0u32; 8 * 4];
    render(&mut buffer, params, &palette);
    for py in 0..4usize {
        for px in 0..8usize {
            let re = params.xmin + ((px as i64) * (params.xmax - params.xmin)) / 8;
            let im = params.ymin + ((py as i64) * (params.ymax - params.ymin)) / 4;
            let n = lsm(&[re, im], 30);
            let expected = if n == 30 {
                0
            } else {
                palette[n as usize % palette.len()].packed()
            };
            assert_eq!(buffer[py * 8 + px], expected);
        }
    }
}

#[test]
fn corner_pixel_of_small_grid() {
    // A 4 by 2 grid over the classic viewport with a single white anchor:
    // pixel (0, 0) sits at (-2.5, -1.0), which escapes after one step, so
    // it is colored through the palette (white), not with the sentinel
    // background; pixel (2, 1) sits at (-0.75, 0.0), inside the set, and
    // gets the black background.
    let params = classic_viewport(4, 2, 50);
    let palette = vec![Rgb(255, 255, 255)];
    let mut buffer = vec![0u32; 4 * 2];
    render(&mut buffer, params, &palette);
    assert_eq!(lsm(&[params.xmin, params.ymin], 50), 1);
    assert_eq!(buffer[0], Rgb(255, 255, 255).packed());
    assert_eq!(lsm(&[-3 * SCALE / 4, 0], 50), 50);
    assert_eq!(buffer[1 * 4 + 2], 0);
}

#[test]
fn nonescaping_pixels_are_black_even_with_bright_palette() {
    // One pixel exactly at the origin: never escapes, so the background
    // wins over every palette entry.
    let params = Params {
        width: 1,
        height: 1,
        xmax: SCALE,
        xmin: 0,
        ymax: SCALE,
        ymin: 0,
        max_iter: 40,
    };
    let palette = vec![Rgb(255, 255, 255)];
    let mut buffer = vec![123u32; 1];
    render(&mut buffer, params, &palette);
    assert_eq!(buffer[0], 0);
}

#[test]
fn check_accepts_and_rejects_configurations() {
    let good = classic_viewport(1920, 1080, 512);
    assert!(good.check());
    let mut zero_width = good;
    zero_width.width = 0;
    assert!(!zero_width.check());
    let mut zero_iter = good;
    zero_iter.max_iter = 0;
    assert!(!zero_iter.check());
    let mut inverted = good;
    inverted.xmin = 2 * SCALE;
    assert!(!inverted.check());
    let mut out_of_band = good;
    out_of_band.xmax = 9 * SCALE;
    assert!(!out_of_band.check());
    let mut too_large = good;
    too_large.width = 40000;
    assert!(!too_large.check());
}
