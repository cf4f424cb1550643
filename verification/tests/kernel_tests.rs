use mandelbrot_rs::lsm;
use mandelbrot_rs::lsm_batch;
use mandelbrot_rs::lsm_v;
use mandelbrot_rs::SCALE;

#[test]
fn origin_never_escapes() {
    assert_eq!(lsm(&[0, 0], 50), 50);
    assert_eq!(lsm(&[0, 0], 1), 1);
    assert_eq!(lsm(&[0, 0], 512), 512);
}

#[test]
fn far_point_escapes_immediately() {
    // c = (5, 5): the first orbit point is c itself, whose squared
    // magnitude 50 is far beyond the threshold 4.
    assert_eq!(lsm(&[5 * SCALE, 5 * SCALE], 50), 1);
}

#[test]
fn unit_point_escapes_in_two_steps() {
    // c = (1, 0): orbit 0, 1, 2; |2|^2 reaches the threshold at step 2.
    assert_eq!(lsm(&[SCALE, 0], 50), 2);
}

#[test]
fn minus_one_is_in_the_set() {
    // c = (-1, 0): the orbit cycles between -1 and 0 exactly, so the
    // count is the iteration bound itself.
    assert_eq!(lsm(&[-SCALE, 0], 64), 64);
}

#[test]
fn zero_iteration_bound_returns_zero() {
    assert_eq!(lsm(&[0, 0], 0), 0);
    assert_eq!(lsm(&[5 * SCALE, 5 * SCALE], 0), 0);
}

#[test]
fn batch_matches_scalar_lane_by_lane() {
    let cr = [0, 5 * SCALE, SCALE, -SCALE];
    let ci = [0, 5 * SCALE, 0, 0];
    let counts = lsm_v(&cr, &ci, 50);
    for i in 0..4 {
        assert_eq!(counts[i], lsm(&[cr[i], ci[i]], 50));
    }
    assert_eq!(counts, [50, 1, 2, 50]);
}

#[test]
fn batch_matches_scalar_general_width() {
    let cr = vec![
        0,
        5 * SCALE,
        SCALE,
        -SCALE,
        -3 * SCALE / 4,
        -2 * SCALE - SCALE / 2,
    ];
    let ci = vec![0, 5 * SCALE, 0, 0, -SCALE / 4, SCALE];
    let counts = lsm_batch(&cr, &ci, 200);
    assert_eq!(counts.len(), cr.len());
    for i in 0..cr.len() {
        assert_eq!(counts[i], lsm(&[cr[i], ci[i]], 200));
    }
}

#[test]
fn batch_early_exit_keeps_counts() {
    // Every lane escapes at once, so the batch loop may stop early; the
    // counts must be the same as with a tiny bound.
    let cr = [5 * SCALE; 4];
    let ci = [5 * SCALE; 4];
    assert_eq!(lsm_v(&cr, &ci, 100000), [1, 1, 1, 1]);
    assert_eq!(lsm_v(&cr, &ci, 1), [1, 1, 1, 1]);
}

#[test]
fn empty_batch() {
    let counts = lsm_batch(&vec![], &vec![], 50);
    assert_eq!(counts.len(), 0);
}
