//! The escape-time kernel: how many steps of `z <- z * z + c` a point of the
//! complex plane survives before its squared magnitude reaches four.
//!
//! Coordinates are fixed-point values (see `fixed`).  The escape test
//! compares the squared magnitude against the squared escape radius, so no
//! square root is ever taken.

use vstd::prelude::*;

use crate::fixed::{
    fx, fx_mul, lemma_fx_range, lemma_fx_square_nonneg, lemma_small_mag, COORD_LIMIT, ORBIT_BOUND,
    SCALE,
};

verus! {

/// Squared escape radius in fixed-point scale: four units, the square of the
/// classical escape radius two.
pub const ESCAPE_THRESHOLD: i64 = 4 * SCALE;

/// A coordinate the kernel accepts: its magnitude stays within the band that
/// keeps every step of the fixed-point recurrence inside `i64`.
pub open spec fn coord_in_range(c: int) -> bool {
    -(COORD_LIMIT as int) <= c <= COORD_LIMIT as int
}

/// The orbit of `c`: the pair `z_n` of the recurrence `z_0 = 0`,
/// `z_{n+1} = z_n * z_n + c`, carried out in fixed-point arithmetic.
pub open spec fn orbit(cr: int, ci: int, n: nat) -> (int, int)
    decreases n,
{
    if n == 0 {
        (0int, 0int)
    } else {
        let prev = orbit(cr, ci, (n - 1) as nat);
        (fx(prev.0, prev.0) - fx(prev.1, prev.1) + cr, fx(2 * prev.0, prev.1) + ci)
    }
}

/// Squared magnitude of an orbit point, in fixed-point scale.
pub open spec fn mag2(z: (int, int)) -> int {
    fx(z.0, z.0) + fx(z.1, z.1)
}

/// Whether the orbit of `c` has reached the escape threshold at step `n`.
pub open spec fn escaped_at(cr: int, ci: int, n: nat) -> bool {
    mag2(orbit(cr, ci, n)) >= ESCAPE_THRESHOLD
}

/// No step before `n` has escaped.
pub open spec fn no_escape_before(cr: int, ci: int, n: nat) -> bool {
    forall|k: nat| k < n ==> !(#[trigger] escaped_at(cr, ci, k))
}

/// The first step in `[n, max_iter)` at which the orbit of `c` has escaped,
/// or `max_iter` if none has.
pub open spec fn count_from(cr: int, ci: int, n: nat, max_iter: nat) -> nat
    decreases max_iter - n,
{
    if n >= max_iter {
        max_iter
    } else if escaped_at(cr, ci, n) {
        n
    } else {
        count_from(cr, ci, n + 1, max_iter)
    }
}

/// The escape time of `c`: the smallest step at which the orbit's squared
/// magnitude reaches the threshold, with `max_iter` as the sentinel for an
/// orbit that survives the whole bound.
pub open spec fn escape_count(cr: int, ci: int, max_iter: nat) -> nat {
    count_from(cr, ci, 0, max_iter)
}

/// `count_from` is pinned down by its characteristic properties: a step `i`
/// that no earlier step escaped before, and that itself escaped unless it is
/// the bound, is the count.
pub proof fn lemma_count_from_char(cr: int, ci: int, t: nat, i: nat, max_iter: nat)
    requires
        t <= i <= max_iter,
        forall|k: nat| t <= k < i ==> !(#[trigger] escaped_at(cr, ci, k)),
        i < max_iter ==> escaped_at(cr, ci, i),
    ensures
        count_from(cr, ci, t, max_iter) == i,
    decreases i - t,
{
    if t < i {
        assert(!escaped_at(cr, ci, t));
        lemma_count_from_char(cr, ci, t + 1, i, max_iter);
    }
}

/// Escape time of one point of the plane: the smallest iteration index at
/// which the squared magnitude of the orbit of `c = (c[0], c[1])` reaches
/// the escape threshold, and `max_iter` exactly if no index below the bound
/// does.
pub fn lsm(c: &[i64; 2], max_iter: u32) -> (n: u32)
    requires
        coord_in_range(c[0] as int),
        coord_in_range(c[1] as int),
    ensures
        n == escape_count(c[0] as int, c[1] as int, max_iter as nat),
{
    let cr: i64 = c[0];
    let ci: i64 = c[1];
    let mut zr: i64 = 0;
    let mut zi: i64 = 0;
    let mut i: u32 = 0;
    loop
        invariant
            i <= max_iter,
            cr == c[0],
            ci == c[1],
            coord_in_range(cr as int),
            coord_in_range(ci as int),
            -ORBIT_BOUND <= zr <= ORBIT_BOUND,
            -ORBIT_BOUND <= zi <= ORBIT_BOUND,
            (zr as int, zi as int) == orbit(cr as int, ci as int, i as nat),
            no_escape_before(cr as int, ci as int, i as nat),
        ensures
            i <= max_iter,
            cr == c[0],
            ci == c[1],
            no_escape_before(cr as int, ci as int, i as nat),
            i == max_iter || escaped_at(cr as int, ci as int, i as nat),
        decreases max_iter - i,
    {
        proof {
            lemma_fx_square_nonneg(zr as int);
            lemma_fx_square_nonneg(zi as int);
            lemma_fx_range(zr as int, zr as int, ORBIT_BOUND as int);
            lemma_fx_range(zi as int, zi as int, ORBIT_BOUND as int);
        }
        let zr2: i64 = fx_mul(zr, zr);
        let zi2: i64 = fx_mul(zi, zi);
        if i >= max_iter || zr2 + zi2 >= ESCAPE_THRESHOLD {
            break;
        }
        proof {
            lemma_small_mag(zr as int);
            lemma_small_mag(zi as int);
            lemma_fx_range(2 * zr as int, zi as int, 4 * SCALE as int);
        }
        let nzr: i64 = zr2 - zi2 + cr;
        let nzi: i64 = fx_mul(2 * zr, zi) + ci;
        zr = nzr;
        zi = nzi;
        i = i + 1;
    }
    proof {
        lemma_count_from_char(c[0] as int, c[1] as int, 0, i as nat, max_iter as nat);
    }
    i
}

/// The state one lane of the batch kernel keeps after `t` whole iteration
/// steps: a lane still live carries the orbit point of step `t` and a count
/// equal to `t`; a lane already frozen carries its final escape count.
pub open spec fn lane_ok(
    cr: int,
    ci: int,
    max_iter: nat,
    t: nat,
    zr: int,
    zi: int,
    cnt: nat,
    live: bool,
) -> bool {
    if live {
        &&& cnt == t
        &&& (zr, zi) == orbit(cr, ci, t)
        &&& no_escape_before(cr, ci, t)
        &&& -(ORBIT_BOUND as int) <= zr <= ORBIT_BOUND as int
        &&& -(ORBIT_BOUND as int) <= zi <= ORBIT_BOUND as int
    } else {
        cnt == escape_count(cr, ci, max_iter)
    }
}

/// Escape times of a whole group of points, all lanes advanced in lock step:
/// each entry of the result is exactly the escape count of the matching
/// entry of `(cr, ci)`, as the scalar kernel computes it.  A lane that has
/// escaped is frozen — its count and state stop changing — and the iteration
/// stops early once every lane is frozen, which leaves every count as it is.
pub fn lsm_batch(cr: &Vec<i64>, ci: &Vec<i64>, max_iter: u32) -> (counts: Vec<u32>)
    requires
        cr@.len() == ci@.len(),
        forall|j: int| 0 <= j < cr@.len() ==> coord_in_range(#[trigger] cr@[j] as int),
        forall|j: int| 0 <= j < ci@.len() ==> coord_in_range(#[trigger] ci@[j] as int),
    ensures
        counts@.len() == cr@.len(),
        forall|j: int|
            0 <= j < cr@.len() ==> #[trigger] counts@[j] == escape_count(
                cr@[j] as int,
                ci@[j] as int,
                max_iter as nat,
            ),
{
    let lanes: usize = cr.len();
    let mut zr: Vec<i64> = Vec::new();
    let mut zi: Vec<i64> = Vec::new();
    let mut count: Vec<u32> = Vec::new();
    let mut live: Vec<bool> = Vec::new();
    let mut j: usize = 0;
    while j < lanes
        invariant
            j <= lanes,
            zr@.len() == j,
            zi@.len() == j,
            count@.len() == j,
            live@.len() == j,
            forall|p: int| 0 <= p < j ==> #[trigger] zr@[p] == 0i64,
            forall|p: int| 0 <= p < j ==> #[trigger] zi@[p] == 0i64,
            forall|p: int| 0 <= p < j ==> #[trigger] count@[p] == 0u32,
            forall|p: int| 0 <= p < j ==> #[trigger] live@[p],
        decreases lanes - j,
    {
        zr.push(0);
        zi.push(0);
        count.push(0);
        live.push(true);
        j = j + 1;
    }
    let mut t: u32 = 0;
    while t < max_iter
        invariant
            t <= max_iter,
            lanes == cr@.len(),
            cr@.len() == ci@.len(),
            zr@.len() == lanes,
            zi@.len() == lanes,
            count@.len() == lanes,
            live@.len() == lanes,
            forall|p: int| 0 <= p < lanes ==> coord_in_range(#[trigger] cr@[p] as int),
            forall|p: int| 0 <= p < lanes ==> coord_in_range(#[trigger] ci@[p] as int),
            forall|p: int|
                0 <= p < lanes ==> #[trigger] lane_ok(
                    cr@[p] as int,
                    ci@[p] as int,
                    max_iter as nat,
                    t as nat,
                    zr@[p] as int,
                    zi@[p] as int,
                    count@[p] as nat,
                    live@[p],
                ),
        ensures
            t <= max_iter,
            zr@.len() == lanes,
            zi@.len() == lanes,
            count@.len() == lanes,
            live@.len() == lanes,
            forall|p: int|
                0 <= p < lanes ==> #[trigger] lane_ok(
                    cr@[p] as int,
                    ci@[p] as int,
                    max_iter as nat,
                    t as nat,
                    zr@[p] as int,
                    zi@[p] as int,
                    count@[p] as nat,
                    live@[p],
                ),
            t == max_iter || (forall|p: int| 0 <= p < lanes ==> !(#[trigger] live@[p])),
        decreases max_iter - t,
    {
        let mut all_frozen: bool = true;
        let mut j: usize = 0;
        while j < lanes
            invariant
                j <= lanes,
                t < max_iter,
                lanes == cr@.len(),
                cr@.len() == ci@.len(),
                zr@.len() == lanes,
                zi@.len() == lanes,
                count@.len() == lanes,
                live@.len() == lanes,
                forall|p: int| 0 <= p < lanes ==> coord_in_range(#[trigger] cr@[p] as int),
                forall|p: int| 0 <= p < lanes ==> coord_in_range(#[trigger] ci@[p] as int),
                forall|p: int|
                    j <= p < lanes ==> #[trigger] lane_ok(
                        cr@[p] as int,
                        ci@[p] as int,
                        max_iter as nat,
                        t as nat,
                        zr@[p] as int,
                        zi@[p] as int,
                        count@[p] as nat,
                        live@[p],
                    ),
                forall|p: int|
                    0 <= p < j ==> #[trigger] lane_ok(
                        cr@[p] as int,
                        ci@[p] as int,
                        max_iter as nat,
                        (t + 1) as nat,
                        zr@[p] as int,
                        zi@[p] as int,
                        count@[p] as nat,
                        live@[p],
                    ),
                all_frozen ==> (forall|p: int| 0 <= p < j ==> !(#[trigger] live@[p])),
            decreases lanes - j,
        {
            proof {
                assert(lane_ok(
                    cr@[j as int] as int,
                    ci@[j as int] as int,
                    max_iter as nat,
                    t as nat,
                    zr@[j as int] as int,
                    zi@[j as int] as int,
                    count@[j as int] as nat,
                    live@[j as int],
                ));
            }
            if live[j] {
                let a: i64 = zr[j];
                let b: i64 = zi[j];
                let ghost crj: int = cr@[j as int] as int;
                let ghost cij: int = ci@[j as int] as int;
                proof {
                    lemma_fx_square_nonneg(a as int);
                    lemma_fx_square_nonneg(b as int);
                    lemma_fx_range(a as int, a as int, ORBIT_BOUND as int);
                    lemma_fx_range(b as int, b as int, ORBIT_BOUND as int);
                }
                let a2: i64 = fx_mul(a, a);
                let b2: i64 = fx_mul(b, b);
                proof {
                    assert(mag2(orbit(crj, cij, t as nat)) == a2 + b2);
                }
                if a2 + b2 >= ESCAPE_THRESHOLD {
                    proof {
                        assert(escaped_at(crj, cij, t as nat));
                        lemma_count_from_char(crj, cij, 0, t as nat, max_iter as nat);
                    }
                    live[j] = false;
                    proof {
                        assert(lane_ok(
                            crj,
                            cij,
                            max_iter as nat,
                            (t + 1) as nat,
                            zr@[j as int] as int,
                            zi@[j as int] as int,
                            count@[j as int] as nat,
                            live@[j as int],
                        ));
                    }
                } else {
                    proof {
                        assert(!escaped_at(crj, cij, t as nat));
                        lemma_small_mag(a as int);
                        lemma_small_mag(b as int);
                        lemma_fx_range(2 * a as int, b as int, 4 * SCALE as int);
                    }
                    zr[j] = a2 - b2 + cr[j];
                    zi[j] = fx_mul(2 * a, b) + ci[j];
                    count[j] = count[j] + 1;
                    all_frozen = false;
                    proof {
                        assert(orbit(crj, cij, (t + 1) as nat) == (
                            fx(a as int, a as int) - fx(b as int, b as int) + crj,
                            fx(2 * (a as int), b as int) + cij,
                        ));
                        assert(no_escape_before(crj, cij, (t + 1) as nat));
                        assert(lane_ok(
                            crj,
                            cij,
                            max_iter as nat,
                            (t + 1) as nat,
                            zr@[j as int] as int,
                            zi@[j as int] as int,
                            count@[j as int] as nat,
                            live@[j as int],
                        ));
                    }
                }
            }
            j = j + 1;
        }
        t = t + 1;
        proof {
            assert forall|p: int|
                0 <= p < lanes implies #[trigger] lane_ok(
                cr@[p] as int,
                ci@[p] as int,
                max_iter as nat,
                t as nat,
                zr@[p] as int,
                zi@[p] as int,
                count@[p] as nat,
                live@[p],
            ) by {
                assert(lane_ok(
                    cr@[p] as int,
                    ci@[p] as int,
                    max_iter as nat,
                    (t - 1 + 1) as nat,
                    zr@[p] as int,
                    zi@[p] as int,
                    count@[p] as nat,
                    live@[p],
                ));
            }
        }
        if all_frozen {
            break;
        }
    }
    proof {
        assert forall|p: int| 0 <= p < lanes implies count@[p] == escape_count(
            cr@[p] as int,
            ci@[p] as int,
            max_iter as nat,
        ) by {
            assert(lane_ok(
                cr@[p] as int,
                ci@[p] as int,
                max_iter as nat,
                t as nat,
                zr@[p] as int,
                zi@[p] as int,
                count@[p] as nat,
                live@[p],
            ));
            if live@[p] {
                lemma_count_from_char(
                    cr@[p] as int,
                    ci@[p] as int,
                    0,
                    t as nat,
                    max_iter as nat,
                );
            }
        }
    }
    count
}

/// Escape times of a group of four points, lane by lane equal to the scalar
/// kernel's counts for the same points.
pub fn lsm_v(cr: &[i64; 4], ci: &[i64; 4], max_iter: u32) -> (counts: [u32; 4])
    requires
        forall|j: int| 0 <= j < 4 ==> coord_in_range(#[trigger] cr[j] as int),
        forall|j: int| 0 <= j < 4 ==> coord_in_range(#[trigger] ci[j] as int),
    ensures
        forall|j: int|
            0 <= j < 4 ==> #[trigger] counts[j] == escape_count(
                cr[j] as int,
                ci[j] as int,
                max_iter as nat,
            ),
{
    let mut vr: Vec<i64> = Vec::new();
    let mut vi: Vec<i64> = Vec::new();
    vr.push(cr[0]);
    vr.push(cr[1]);
    vr.push(cr[2]);
    vr.push(cr[3]);
    vi.push(ci[0]);
    vi.push(ci[1]);
    vi.push(ci[2]);
    vi.push(ci[3]);
    let counts = lsm_batch(&vr, &vi, max_iter);
    let out: [u32; 4] = [counts[0], counts[1], counts[2], counts[3]];
    out
}

/// The per-lane counts that the batch contract fixes, as one sequence.
pub open spec fn batch_counts(crs: Seq<int>, cis: Seq<int>, max_iter: nat) -> Seq<nat> {
    Seq::new(crs.len(), |j: int| escape_count(crs[j], cis[j], max_iter))
}

/// Batch and scalar kernels agree lane by lane: at every lane, the sequence
/// of counts fixed by the batch kernel's contract holds exactly the count
/// fixed by the scalar kernel's contract for that lane's point.
pub proof fn lemma_batch_matches_scalar(crs: Seq<int>, cis: Seq<int>, max_iter: nat, j: int)
    requires
        crs.len() == cis.len(),
        0 <= j < crs.len(),
    ensures
        batch_counts(crs, cis, max_iter)[j] == escape_count(crs[j], cis[j], max_iter),
{
}

/// The origin never escapes: its orbit never leaves the origin.
pub proof fn lemma_orbit_of_origin(n: nat)
    ensures
        orbit(0, 0, n) == (0int, 0int),
    decreases n,
{
    if n > 0 {
        lemma_orbit_of_origin((n - 1) as nat);
    }
}

/// The escape count of the origin is the iteration bound itself, whatever
/// that bound is: the origin is in the set.
pub proof fn lemma_origin_never_escapes(max_iter: nat)
    ensures
        escape_count(0, 0, max_iter) == max_iter,
{
    assert forall|k: nat| k < max_iter implies !(#[trigger] escaped_at(0, 0, k)) by {
        lemma_orbit_of_origin(k);
    }
    lemma_count_from_char(0, 0, 0, max_iter, max_iter);
}

} // verus!
