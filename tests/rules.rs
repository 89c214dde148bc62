use pathtracer::path::{next_step, roulette_applies, PathStep, MAX_BOUNCES, ROULETTE_DEPTH};
use pathtracer::render::pixel_order;
use pathtracer::texture::{checker_shows_even, clamp_texel, is_even, Bitmap};

#[test]
fn is_even_on_small_numbers() {
    assert!(is_even(0));
    assert!(!is_even(1));
    assert!(is_even(2));
    assert!(!is_even(u32::MAX));
}

#[test]
fn checker_parity() {
    assert!(checker_shows_even(0, 0));
    assert!(checker_shows_even(3, 5));
    assert!(!checker_shows_even(2, 5));
    assert!(!checker_shows_even(7, 4));
}

#[test]
fn texel_index_is_clamped_to_the_last_texel() {
    assert_eq!(clamp_texel(0, 10), 0);
    assert_eq!(clamp_texel(9, 10), 9);
    assert_eq!(clamp_texel(10, 10), 9);
    assert_eq!(clamp_texel(u32::MAX, 1), 0);
}

#[test]
fn roulette_starts_after_depth_five() {
    assert_eq!(ROULETTE_DEPTH, 5);
    assert!(!roulette_applies(1));
    assert!(!roulette_applies(5));
    assert!(roulette_applies(6));
}

#[test]
fn path_stops_without_scatter() {
    assert_eq!(next_step(1, false, true), PathStep::Stop);
}

#[test]
fn path_bounces_early_whatever_the_roulette() {
    assert_eq!(next_step(1, true, false), PathStep::Bounce);
    assert_eq!(next_step(5, true, false), PathStep::Bounce);
}

#[test]
fn path_stops_when_roulette_is_lost() {
    assert_eq!(next_step(6, true, false), PathStep::Stop);
    assert_eq!(next_step(6, true, true), PathStep::Bounce);
}

#[test]
fn path_stops_at_the_bounce_limit() {
    assert_eq!(MAX_BOUNCES, 100);
    assert_eq!(next_step(99, true, true), PathStep::Bounce);
    assert_eq!(next_step(100, true, true), PathStep::Stop);
}

#[test]
fn pixel_order_is_row_major() {
    assert_eq!(
        pixel_order(3, 2),
        vec![(0, 0), (1, 0), (2, 0), (0, 1), (1, 1), (2, 1)]
    );
    assert_eq!(pixel_order(1, 1), vec![(0, 0)]);
}

fn two_by_three() -> Bitmap {
    let pixels = (0..6u8).map(|k| (k, 10 * k, 100 + k)).collect();
    Bitmap::new(2, 3, pixels).unwrap()
}

#[test]
fn bitmap_needs_one_texel_per_place() {
    assert!(Bitmap::new(0, 1, vec![]).is_none());
    assert!(Bitmap::new(1, 0, vec![]).is_none());
    assert!(Bitmap::new(2, 2, vec![(0, 0, 0); 3]).is_none());
    assert!(Bitmap::new(2, 2, vec![(0, 0, 0); 5]).is_none());
    let b = Bitmap::new(2, 2, vec![(0, 0, 0); 4]).unwrap();
    assert_eq!((b.width(), b.height()), (2, 2));
}

#[test]
fn bitmap_texel_reads_row_by_row() {
    let b = two_by_three();
    assert_eq!(b.texel(0, 0), (0, 0, 100));
    assert_eq!(b.texel(1, 0), (1, 10, 101));
    assert_eq!(b.texel(0, 1), (2, 20, 102));
    assert_eq!(b.texel(1, 2), (5, 50, 105));
}

#[test]
fn bitmap_texel_clamps_to_the_edges() {
    let b = two_by_three();
    assert_eq!(b.texel(7, 0), (1, 10, 101));
    assert_eq!(b.texel(0, 3), (4, 40, 104));
    assert_eq!(b.texel(u32::MAX, u32::MAX), (5, 50, 105));
}
