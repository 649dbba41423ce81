use purple_rain::particle::Drop;
use purple_rain::render::{clear, render, Palette};
use purple_rain::render::{BLUE_BACKGROUND, BLUE_RAIN, PURPLE_BACKGROUND, PURPLE_RAIN};
use purple_rain::{HEIGHT, WIDTH};

fn purple() -> Palette {
    Palette { background: PURPLE_BACKGROUND, foreground: PURPLE_RAIN }
}

fn full_frame() -> Vec<u8> {
    vec![0u8; (WIDTH * HEIGHT * 4) as usize]
}

fn pixel(frame: &[u8], k: usize) -> [u8; 4] {
    [frame[4 * k], frame[4 * k + 1], frame[4 * k + 2], frame[4 * k + 3]]
}

#[test]
fn update_moves_drop_down() {
    let mut d = Drop { x: 5, y: 10, z: 8 };
    d.update();
    assert_eq!((d.x, d.y, d.z), (5, 12, 8));

    let mut small = Drop { x: -3, y: 0, z: 3 };
    small.update();
    assert_eq!((small.x, small.y, small.z), (-3, 1, 3));

    let mut zero = Drop { x: 0, y: -7, z: 0 };
    zero.update();
    assert_eq!(zero.y, -6);

    let mut neg = Drop { x: 2, y: 4, z: -9 };
    neg.update();
    assert_eq!((neg.x, neg.y, neg.z), (2, 5, -9));

    let mut big = Drop { x: 1, y: 2, z: 41 };
    big.update();
    assert_eq!(big.y, 12);
}

#[test]
fn clear_fills_background() {
    let mut frame = vec![9u8; 8 * 4];
    clear(&mut frame, &PURPLE_BACKGROUND);
    for k in 0..8 {
        assert_eq!(pixel(&frame, k), PURPLE_BACKGROUND);
    }
}

#[test]
fn empty_render_is_background() {
    let mut drops: Vec<Drop> = Vec::new();
    let mut frame = vec![7u8; 4 * 3 * 4];
    render(&mut drops, &mut frame, 4, 3, &purple());
    for k in 0..12 {
        assert_eq!(pixel(&frame, k), PURPLE_BACKGROUND);
    }
    assert_eq!(drops.len(), 0);
}

#[test]
fn boundary_drop_recycles() {
    let mut drops = vec![Drop { x: 0, y: 299, z: 4 }];
    let mut frame = full_frame();
    render(&mut drops, &mut frame, WIDTH, HEIGHT, &purple());
    // advanced to y == 300: every cell index is at least 300 * 400, past the
    // buffer, so nothing is painted and the drop is recycled
    assert_eq!(drops[0].y, -4);
    assert_eq!(drops[0].z, 4);
    assert!(0 <= drops[0].x && drops[0].x < WIDTH as i32);
    for k in 0..(WIDTH * HEIGHT) as usize {
        assert_eq!(pixel(&frame, k), PURPLE_BACKGROUND);
    }
}

#[test]
fn concrete_drop_pixels() {
    let mut drops = vec![Drop { x: 10, y: 10, z: 8 }];
    let mut frame = full_frame();
    render(&mut drops, &mut frame, WIDTH, HEIGHT, &purple());
    assert_eq!(drops[0].x, 10);
    assert_eq!(drops[0].y, 12);
    assert_eq!(drops[0].z, 8);
    assert_eq!(&frame[19240..19244], &[207, 100, 219, 255]);
    for y in 12..20 {
        for x in 10..12 {
            assert_eq!(pixel(&frame, y * 400 + x), PURPLE_RAIN);
        }
    }
    // just outside the bounding box everything stays background
    assert_eq!(pixel(&frame, 20 * 400 + 10), PURPLE_BACKGROUND);
    assert_eq!(pixel(&frame, 11 * 400 + 10), PURPLE_BACKGROUND);
    assert_eq!(pixel(&frame, 12 * 400 + 12), PURPLE_BACKGROUND);
    assert_eq!(pixel(&frame, 12 * 400 + 9), PURPLE_BACKGROUND);
}

#[test]
fn drop_count_constant() {
    let mut drops = vec![
        Drop { x: 0, y: 0, z: 4 },
        Drop { x: 50, y: 290, z: 9 },
        Drop { x: 399, y: 150, z: 2 },
        Drop { x: -5, y: 100, z: 17 },
        Drop { x: 200, y: 299, z: 40 },
    ];
    let mut frame = full_frame();
    for _ in 0..10 {
        render(&mut drops, &mut frame, WIDTH, HEIGHT, &purple());
        assert_eq!(drops.len(), 5);
    }
}

#[test]
fn draw_blue_theme() {
    let mut drops = vec![Drop { x: 50, y: 60, z: 8 }];
    let mut frame = full_frame();
    Drop::draw(&mut drops, &mut frame);
    assert_eq!(drops[0].y, 62);
    assert_eq!(pixel(&frame, 62 * 400 + 50), BLUE_RAIN);
    assert_eq!(pixel(&frame, 62 * 400 + 52), BLUE_BACKGROUND);
    assert_eq!(pixel(&frame, 0), BLUE_BACKGROUND);
}

#[test]
fn right_edge_wraps_into_next_row() {
    // a drop crossing the right edge is not clipped per row: its second
    // column lands on the first pixel of the next row
    let mut drops = vec![Drop { x: 399, y: 10, z: 8 }];
    let mut frame = full_frame();
    render(&mut drops, &mut frame, WIDTH, HEIGHT, &purple());
    assert_eq!(drops[0].y, 12);
    for y in 12..20 {
        assert_eq!(pixel(&frame, y * 400 + 399), PURPLE_RAIN);
        assert_eq!(pixel(&frame, (y + 1) * 400), PURPLE_RAIN);
        assert_eq!(pixel(&frame, (y + 1) * 400 + 1), PURPLE_BACKGROUND);
    }
}

#[test]
fn far_gone_drop_comes_back_on_screen() {
    // recycling re-randomizes the column: whatever the draw returns, the
    // drop must land strictly inside [0, width)
    let mut drops = vec![Drop { x: 5000, y: 5000, z: 12 }];
    let mut frame = full_frame();
    render(&mut drops, &mut frame, WIDTH, HEIGHT, &purple());
    assert_eq!(drops[0].y, -12);
    assert_eq!(drops[0].z, 12);
    assert!(0 <= drops[0].x && drops[0].x < 400);
}
