use firemark::perturb::{perturb, perturb_with, PixelDraws};
use firemark::pixmap::Pixmap;

fn within(v: u8, center: u8, radius: i32, lo: i32, hi: i32) -> bool {
    let v = v as i32;
    let c = center as i32;
    v >= (c - radius).max(lo) && v <= (c + radius).min(hi)
}

#[test]
fn fully_transparent_overlay_is_untouched() {
    let data: Vec<u8> = vec![10, 20, 30, 0, 40, 50, 60, 0, 1, 2, 3, 0, 7, 7, 7, 0];
    for _ in 0..50 {
        let mut img = Pixmap::from_raw(2, 2, data.clone()).unwrap();
        perturb(&mut img);
        assert_eq!(img.into_raw(), data);
    }
}

#[test]
fn lone_visible_pixel_is_jittered_and_ghosts_use_its_color() {
    // 3x3, only the centre is visible: it has no visible neighbour, so no
    // micro-dot can be placed; transparent pixels stay or become ghosts.
    let mut data = vec![0u8; 36];
    data[16..20].copy_from_slice(&[10, 20, 250, 100]);
    for _ in 0..300 {
        let mut img = Pixmap::from_raw(3, 3, data.clone()).unwrap();
        perturb(&mut img);
        let out = img.into_raw();
        for i in 0..9 {
            let px = &out[4 * i..4 * i + 4];
            if i == 4 {
                assert!(within(px[3], 100, 10, 1, 255));
                assert!(within(px[0], 10, 4, 0, 255));
                assert!(within(px[1], 20, 4, 0, 255));
                assert!(within(px[2], 250, 4, 0, 255));
            } else {
                let unchanged = px == [0, 0, 0, 0];
                let ghost = px[..3] == [10, 20, 250] && (3..=8).contains(&px[3]);
                assert!(unchanged || ghost, "pixel {i}: {px:?}");
            }
        }
    }
}

#[test]
fn edge_dots_take_the_neighbour_color() {
    // One row: two visible pixels then a transparent one. The second visible
    // pixel is on an alpha boundary; its only visible neighbour is the first.
    let data: Vec<u8> = vec![100, 0, 0, 200, 0, 100, 0, 200, 0, 0, 0, 0];
    let mut saw_dot = false;
    for _ in 0..3000 {
        let mut img = Pixmap::from_raw(3, 1, data.clone()).unwrap();
        perturb(&mut img);
        let out = img.into_raw();
        assert!(within(out[3], 200, 10, 1, 255));
        assert!(within(out[7], 200, 10, 1, 255));
        let last = &out[8..12];
        let unchanged = last == [0, 0, 0, 0];
        let dot = last[..3] == out[0..3] && (20..=60).contains(&last[3]);
        let ghost = last[..3] == [50, 50, 0] && (3..=8).contains(&last[3]);
        assert!(unchanged || dot || ghost, "{last:?}");
        saw_dot |= dot;
    }
    assert!(saw_dot);
}

fn still() -> PixelDraws {
    PixelDraws {
        alpha: 0,
        red: 0,
        green: 0,
        blue: 0,
        dot_on: false,
        dot_alpha: 20,
        ghost_on: false,
        ghost_alpha: 3,
    }
}

#[test]
fn jitter_moves_visible_pixels_by_the_draws() {
    let data: Vec<u8> = vec![100, 0, 0, 200, 0, 100, 0, 200, 0, 0, 0, 0];
    let mut img = Pixmap::from_raw(3, 1, data).unwrap();
    let mut d0 = still();
    d0.alpha = 5;
    d0.red = -4;
    d0.green = 3;
    let mut d1 = still();
    d1.alpha = -10;
    d1.red = 4;
    d1.green = -4;
    d1.blue = 2;
    d1.dot_on = true;
    d1.dot_alpha = 40;
    perturb_with(&mut img, &vec![d0, d1, still()]);
    // The second pixel is on the alpha boundary; its only visible neighbour
    // is the first, whose jittered color the dot takes.
    assert_eq!(img.into_raw(), vec![96, 3, 0, 205, 4, 96, 2, 190, 96, 3, 0, 40]);
}

#[test]
fn ghost_pixels_take_the_dominant_color() {
    let data: Vec<u8> = vec![100, 0, 0, 200, 0, 100, 0, 200, 0, 0, 0, 0];
    let mut img = Pixmap::from_raw(3, 1, data).unwrap();
    let mut d2 = still();
    d2.ghost_on = true;
    d2.ghost_alpha = 5;
    perturb_with(&mut img, &vec![still(), still(), d2]);
    assert_eq!(img.into_raw(), vec![100, 0, 0, 200, 0, 100, 0, 200, 50, 50, 0, 5]);
}

#[test]
fn jitter_is_clamped() {
    let data: Vec<u8> = vec![2, 253, 128, 5];
    let mut img = Pixmap::from_raw(1, 1, data).unwrap();
    let mut d = still();
    d.alpha = -10;
    d.red = -4;
    d.green = 4;
    perturb_with(&mut img, &vec![d]);
    assert_eq!(img.into_raw(), vec![0, 255, 128, 1]);
}

/// A 3x2 overlay whose only transparent pixel, top middle, is the first
/// transparent neighbour of the top-left, top-right and bottom-middle pixels.
fn hole_overlay() -> Vec<u8> {
    vec![
        10, 20, 30, 255, 0, 0, 0, 0, 40, 50, 60, 255, //
        100, 100, 100, 255, 7, 7, 7, 255, 200, 0, 50, 255,
    ]
}

fn hole_draws(a: bool, b: bool, d: bool) -> Vec<PixelDraws> {
    let mut draws = vec![still(); 6];
    draws[0].dot_on = a;
    draws[0].dot_alpha = 21;
    draws[2].dot_on = b;
    draws[2].dot_alpha = 22;
    draws[4].dot_on = d;
    draws[4].dot_alpha = 25;
    draws[1].ghost_on = true;
    draws
}

#[test]
fn the_last_dot_in_row_major_order_wins() {
    let mut img = Pixmap::from_raw(3, 2, hole_overlay()).unwrap();
    perturb_with(&mut img, &hole_draws(true, true, true));
    let out = img.into_raw();
    assert_eq!(&out[4..8], &[150, 50, 75, 25]);
    let mut expected = hole_overlay();
    expected[4..8].copy_from_slice(&[150, 50, 75, 25]);
    assert_eq!(out, expected);

    let mut img = Pixmap::from_raw(3, 2, hole_overlay()).unwrap();
    perturb_with(&mut img, &hole_draws(true, true, false));
    assert_eq!(&img.into_raw()[4..8], &[200, 0, 50, 22]);

    let mut img = Pixmap::from_raw(3, 2, hole_overlay()).unwrap();
    perturb_with(&mut img, &hole_draws(true, false, false));
    assert_eq!(&img.into_raw()[4..8], &[100, 100, 100, 21]);
}

#[test]
fn a_hole_without_a_dot_can_become_a_ghost() {
    let mut img = Pixmap::from_raw(3, 2, hole_overlay()).unwrap();
    let mut draws = hole_draws(false, false, false);
    draws[1].ghost_alpha = 7;
    perturb_with(&mut img, &draws);
    // Dominant color: the mean of the five visible pixels, rounded down.
    assert_eq!(&img.into_raw()[4..8], &[71, 35, 49, 7]);
}

#[test]
fn draws_do_nothing_on_a_transparent_overlay() {
    let data: Vec<u8> = vec![1, 2, 3, 0, 4, 5, 6, 0];
    let mut img = Pixmap::from_raw(2, 1, data.clone()).unwrap();
    let mut d = still();
    d.ghost_on = true;
    d.dot_on = true;
    perturb_with(&mut img, &vec![d, d]);
    assert_eq!(img.into_raw(), data);
}

#[test]
fn pixels_away_from_the_boundary_get_no_dots() {
    // A visible 2x1 bar in the middle row of a 4x3 overlay; every pixel's
    // draw asks for a dot. Only pixels next to the bar can receive one.
    let mut data = vec![0u8; 48];
    data[20..24].copy_from_slice(&[10, 20, 30, 200]);
    data[24..28].copy_from_slice(&[50, 60, 70, 200]);
    let mut draws = vec![still(); 12];
    for d in draws.iter_mut() {
        d.dot_on = true;
        d.dot_alpha = 33;
    }
    draws[0].ghost_on = true;
    draws[0].ghost_alpha = 4;
    let mut img = Pixmap::from_raw(4, 3, data.clone()).unwrap();
    perturb_with(&mut img, &draws);
    let out = img.into_raw();
    // Corner (0, 0) has no visible neighbour: a ghost of the dominant color.
    assert_eq!(&out[0..4], &[30, 40, 50, 4]);
    // Pixel (1, 1) of the bar: left neighbour (0, 1) is its first transparent
    // one; its only visible neighbour is (2, 1).
    assert_eq!(&out[16..20], &[50, 60, 70, 33]);
    // Pixel (2, 1): first transparent neighbour is (3, 1); visible neighbour
    // (1, 1).
    assert_eq!(&out[28..32], &[10, 20, 30, 33]);
    // Pixels with no visible neighbour and no ghost draw stay transparent.
    for i in [3usize, 8, 11] {
        assert_eq!(&out[4 * i..4 * i + 4], &[0, 0, 0, 0]);
    }
}
