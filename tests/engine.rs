use rust_compute::engine::Engine;
use rust_compute::get_module_name;
use rust_compute::kernel::ScalarEscape;
use rust_compute::palette::{palette_index, Rgb, PALETTE_SIZE};
use rust_compute::sweep::{Run, Sweep};

fn ramp() -> Vec<Rgb> {
    (0..PALETTE_SIZE)
        .map(|i| Rgb { r: (i % 256) as u8, g: (i / 8) as u8, b: 7 })
        .collect()
}

fn ready_engine() -> Engine {
    let mut e = Engine::new();
    e.install_palette(ramp());
    e
}

#[test]
fn palette_index_scales_and_caps() {
    assert_eq!(palette_index(0, 10), 0);
    assert_eq!(palette_index(1, 10), 204);
    assert_eq!(palette_index(9, 10), 1843);
    assert_eq!(palette_index(1, 2048), 1);
    assert_eq!(palette_index(10, 10), 2047);
    assert_eq!(palette_index(u32::MAX, 1), 2047);
}

#[test]
fn palette_index_stays_in_table() {
    for max in [1u32, 3, 100, 2047, 2048, 5000] {
        for k in 0..max.min(6000) {
            assert!(palette_index(k, max) < PALETTE_SIZE);
        }
    }
    assert_eq!(palette_index(4999, 5000), 2047);
}

#[test]
fn palette_is_filled_once() {
    let mut e = Engine::new();
    assert!(!e.is_palette_built());
    e.install_palette(ramp());
    assert!(e.is_palette_built());
    let other = vec![Rgb { r: 1, g: 1, b: 1 }; PALETTE_SIZE];
    e.install_palette(other);
    e.paint(&vec![1], 2048);
    assert_eq!(e.frame(4), vec![1, 0, 7, 255]);
}

#[test]
fn buffer_grows_and_never_shrinks() {
    let mut e = Engine::new();
    assert_eq!(e.pixels().len(), 0);
    e.acquire_buffer(64);
    assert_eq!(e.pixels().len(), 64);
    assert!(e.pixels().iter().all(|&b| b == 0));
    e.acquire_buffer(16);
    assert_eq!(e.pixels().len(), 64);
    e.acquire_buffer(100);
    assert_eq!(e.pixels().len(), 100);
}

#[test]
fn paint_maps_counts_to_colours() {
    let mut e = ready_engine();
    e.paint(&vec![10, 0, 5, 1], 10);
    // count 5 of 10 -> index 1024: r = 0, g = 128; count 1 -> index 204.
    assert_eq!(
        e.frame(16),
        vec![0, 0, 0, 255, 0, 0, 7, 255, 0, 128, 7, 255, 204, 25, 7, 255]
    );
}

#[test]
fn paint_keeps_the_tail_and_is_repeatable() {
    let mut e = ready_engine();
    e.acquire_buffer(12);
    e.paint(&vec![3, 3, 3], 3);
    e.paint(&vec![0], 3);
    assert_eq!(e.frame(12), vec![0, 0, 7, 255, 0, 0, 0, 255, 0, 0, 0, 255]);
    let mut f = ready_engine();
    f.paint(&vec![0], 3);
    assert_eq!(f.frame(4), e.frame(4));
}

#[test]
fn paint_of_empty_frame_writes_nothing() {
    let mut e = ready_engine();
    e.paint(&vec![], 5);
    assert_eq!(e.pixels().len(), 0);
}

fn runs(width: u32, height: u32) -> Vec<Run> {
    let mut s = Sweep::new(width, height);
    let mut out = Vec::new();
    while let Some(r) = s.next_run() {
        out.push(r);
    }
    out
}

#[test]
fn sweep_groups_then_singles() {
    let r = runs(6, 2);
    let got: Vec<(u32, u32, u32)> = r.iter().map(|r| (r.x, r.y, r.len)).collect();
    assert_eq!(
        got,
        vec![(0, 0, 4), (4, 0, 1), (5, 0, 1), (0, 1, 4), (4, 1, 1), (5, 1, 1)]
    );
}

#[test]
fn sweep_aligned_part_matches_narrower_frame() {
    let wide: Vec<(u32, u32, u32)> = runs(11, 1).iter().filter(|r| r.x < 8).map(|r| (r.x, r.y, r.len)).collect();
    let narrow: Vec<(u32, u32, u32)> = runs(8, 1).iter().map(|r| (r.x, r.y, r.len)).collect();
    assert_eq!(wide, narrow);
    assert!(runs(11, 1).iter().filter(|r| r.x >= 8).all(|r| r.len == 1));
}

#[test]
fn sweep_of_empty_frame_is_empty() {
    assert!(runs(0, 5).is_empty());
    assert!(runs(5, 0).is_empty());
    assert_eq!(runs(3, 1).len(), 3);
}

#[test]
fn single_pixel_one_iteration_is_black() {
    let mut e = ready_engine();
    let mut counts = Vec::new();
    let mut s = Sweep::new(1, 1);
    while let Some(run) = s.next_run() {
        assert_eq!(run.len, 1);
        let mut esc = ScalarEscape::new(1);
        // The orbit starts at 0, whose magnitude passes the test.
        while !esc.finished && esc.observe(true) {}
        counts.push(esc.count);
    }
    e.paint(&counts, 1);
    assert_eq!(e.frame(4), vec![0, 0, 0, 255]);
}

#[test]
fn module_name_is_fixed() {
    assert_eq!(get_module_name(), "Rust/WASM + SIMD");
}
