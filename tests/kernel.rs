use rust_compute::kernel::{LaneEscape, ScalarEscape};
use rust_compute::palette::palette_index;

/// Feeds a fixed list of magnitude tests to a single-point counter.
fn scalar_count(checks: &[bool], max: u32) -> u32 {
    let mut esc = ScalarEscape::new(max);
    let mut i = 0;
    while !esc.finished {
        let within = checks.get(i).copied().unwrap_or(false);
        i += 1;
        if !esc.observe(within) {
            break;
        }
    }
    esc.count
}

/// Feeds four lists of magnitude tests to a grouped counter.
fn lane_count(checks: [&[bool]; 4], max: u32) -> [u32; 4] {
    let mut esc = LaneEscape::new(max);
    let mut i = 0;
    while !esc.finished {
        let within = [0, 1, 2, 3].map(|l| checks[l].get(i).copied().unwrap_or(false));
        i += 1;
        if !esc.observe(within) {
            break;
        }
    }
    esc.counts
}

/// Single-point escape count of the seed, the orbit computed in f32.
fn scalar_orbit(x0: f32, y0: f32, max: u32) -> u32 {
    let mut esc = ScalarEscape::new(max);
    let (mut x, mut y) = (0.0f32, 0.0f32);
    while !esc.finished {
        if !esc.observe(x * x + y * y <= 4.0) {
            break;
        }
        let xt = x * x - y * y + x0;
        y = 2.0 * x * y + y0;
        x = xt;
    }
    esc.count
}

/// Grouped escape counts of four seeds, every lane's orbit kept going.
fn lane_orbit(x0: [f32; 4], y0: [f32; 4], max: u32) -> [u32; 4] {
    let mut esc = LaneEscape::new(max);
    let mut x = [0.0f32; 4];
    let mut y = [0.0f32; 4];
    while !esc.finished {
        let within = [0, 1, 2, 3].map(|l| x[l] * x[l] + y[l] * y[l] <= 4.0);
        if !esc.observe(within) {
            break;
        }
        for l in 0..4 {
            let xy = x[l] * y[l];
            let xn = x[l] * x[l] - y[l] * y[l] + x0[l];
            y[l] = 2.0 * xy + y0[l];
            x[l] = xn;
        }
    }
    esc.counts
}

#[test]
fn scalar_counts_leading_passes() {
    assert_eq!(scalar_count(&[true, true, false], 10), 2);
    assert_eq!(scalar_count(&[false], 10), 0);
    assert_eq!(scalar_count(&[true; 20], 10), 10);
}

#[test]
fn scalar_zero_budget_is_finished() {
    let esc = ScalarEscape::new(0);
    assert!(esc.finished);
    assert_eq!(esc.count, 0);
}

#[test]
fn lane_zero_budget_is_finished() {
    let esc = LaneEscape::new(0);
    assert!(esc.finished);
    assert_eq!(esc.counts, [0, 0, 0, 0]);
}

#[test]
fn lane_counts_match_scalar_on_mixed_lanes() {
    let a: &[bool] = &[true, false];
    let b: &[bool] = &[true, true, true, true, true, true];
    let c: &[bool] = &[false];
    let d: &[bool] = &[true, true, true, false, true];
    for max in [1u32, 2, 3, 4, 5, 6, 8] {
        let lanes = lane_count([a, b, c, d], max);
        let singles = [a, b, c, d].map(|s| scalar_count(s, max));
        assert_eq!(lanes, singles, "budget {}", max);
    }
    assert_eq!(lane_count([a, b, c, d], 8), [1, 6, 0, 3]);
}

#[test]
fn lane_stops_when_all_lanes_escape() {
    let mut esc = LaneEscape::new(100);
    assert!(esc.observe([true, true, true, true]));
    assert!(!esc.observe([false, false, false, false]));
    assert!(esc.finished);
    assert_eq!(esc.counts, [1, 1, 1, 1]);
}

#[test]
fn lane_matches_scalar_on_orbits() {
    let x0 = [-2.0f32, -0.75, 0.3, 0.26];
    let y0 = [0.0f32, 0.1, 0.5, 0.0];
    let lanes = lane_orbit(x0, y0, 200);
    for l in 0..4 {
        assert_eq!(lanes[l], scalar_orbit(x0[l], y0[l], 200));
    }
}

#[test]
fn seed_at_two_escapes_after_two_steps() {
    // z0 = 0 passes, z1 = 2 has |z|^2 = 4 which still passes, z2 = 6 fails.
    let s = scalar_orbit(2.0, 0.0, 100);
    assert_eq!(s, 2);
    let l = lane_orbit([2.0, 2.0, 0.0, 2.0], [0.0; 4], 100);
    assert_eq!(l[0], s);
    assert_eq!(l[1], s);
    assert_eq!(l[2], 100);
    assert_eq!(palette_index(s, 100), 40);
}

#[test]
fn origin_stays_bounded() {
    assert_eq!(scalar_orbit(0.0, 0.0, 1), 1);
    assert_eq!(scalar_orbit(0.0, 0.0, 50), 50);
}
