use mandelbrot_rs::color::stretch;
use mandelbrot_rs::color::Rgb;

#[test]
fn new_builds_the_triple() {
    let c = Rgb::new(1, 2, 3);
    assert_eq!(c, Rgb(1, 2, 3));
    assert_eq!(c.0, 1);
    assert_eq!(c.1, 2);
    assert_eq!(c.2, 3);
}

#[test]
fn lerp_at_zero_keeps_the_first_color() {
    let a = Rgb(10, 200, 7);
    let b = Rgb(90, 0, 255);
    assert_eq!(Rgb::lerp(a, b, 0, 4), a);
}

#[test]
fn lerp_at_one_reaches_the_second_color() {
    let a = Rgb(10, 200, 7);
    let b = Rgb(90, 0, 255);
    assert_eq!(Rgb::lerp(a, b, 4, 4), b);
}

#[test]
fn lerp_midpoint_rounds_half_up() {
    // 127.5 rounds away from zero to 128 on every channel.
    assert_eq!(
        Rgb::lerp(Rgb(0, 0, 0), Rgb(255, 255, 255), 1, 2),
        Rgb(128, 128, 128)
    );
}

#[test]
fn lerp_exact_quarter() {
    assert_eq!(
        Rgb::lerp(Rgb(0, 0, 0), Rgb(100, 100, 100), 1, 4),
        Rgb(25, 25, 25)
    );
}

#[test]
fn stretch_length_is_anchors_times_steps() {
    let anchors = vec![Rgb(0, 0, 0), Rgb(100, 100, 100)];
    assert_eq!(stretch(4, &anchors).len(), 8);
    assert_eq!(stretch(1, &anchors).len(), 2);
    let many: Vec<Rgb> = (0..31).map(|i| Rgb(i as u8, 0, 0)).collect();
    assert_eq!(stretch(8, &many).len(), 248);
}

#[test]
fn stretch_first_entry_is_first_anchor() {
    let anchors = vec![Rgb(13, 5, 200), Rgb(90, 90, 90), Rgb(1, 2, 3)];
    let out = stretch(7, &anchors);
    assert_eq!(out[0], anchors[0]);
}

#[test]
fn stretch_interpolates_and_wraps() {
    let anchors = vec![Rgb(0, 0, 0), Rgb(100, 100, 100)];
    let out = stretch(4, &anchors);
    let grey = |v: u8| Rgb(v, v, v);
    assert_eq!(
        out,
        vec![
            grey(0),
            grey(25),
            grey(50),
            grey(75),
            grey(100),
            grey(75),
            grey(50),
            grey(25),
        ]
    );
}

#[test]
fn stretch_single_anchor_is_constant() {
    let out = stretch(3, &vec![Rgb(255, 255, 255)]);
    assert_eq!(
        out,
        vec![Rgb(255, 255, 255), Rgb(255, 255, 255), Rgb(255, 255, 255)]
    );
}

#[test]
fn packed_lays_out_red_green_blue() {
    assert_eq!(Rgb(0x11, 0x22, 0x33).packed(), 0x0011_2233);
    assert_eq!(Rgb(255, 255, 255).packed(), 0x00FF_FFFF);
    assert_eq!(Rgb(0, 0, 0).packed(), 0);
}
