use lidar_monitor::canvas::{
    blue_red_gradient, draw_circle, draw_glyph, draw_hline, draw_label, draw_progress_arc,
    draw_smile, draw_vline, fill_dot, set_px, Pixel, HEIGHT, WIDTH,
};
use std::collections::BTreeSet;

const INK: u32 = 7;

fn window() -> Vec<u32> {
    vec![0; WIDTH * HEIGHT]
}

/// The inked positions of a window, column first.
fn inked(buf: &[u32]) -> BTreeSet<(isize, isize)> {
    (0..buf.len())
        .filter(|&i| buf[i] == INK)
        .map(|i| ((i % WIDTH) as isize, (i / WIDTH) as isize))
        .collect()
}

fn clipped(all: impl IntoIterator<Item = (isize, isize)>) -> BTreeSet<(isize, isize)> {
    all.into_iter().filter(|&(x, y)| (0..800).contains(&x) && (0..800).contains(&y)).collect()
}

/// The midpoint algorithm, step by step.
fn circle_by_steps(cx: isize, cy: isize, r: isize) -> Vec<(isize, isize)> {
    let mut all = Vec::new();
    let (mut x, mut y, mut d) = (0isize, r, 1 - r);
    while x <= y {
        for p in [
            (cx + x, cy + y),
            (cx - x, cy + y),
            (cx + x, cy - y),
            (cx - x, cy - y),
            (cx + y, cy + x),
            (cx - y, cy + x),
            (cx + y, cy - x),
            (cx - y, cy - x),
        ] {
            all.push(p);
        }
        x += 1;
        if d < 0 {
            d += 2 * x + 1;
        } else {
            y -= 1;
            d += 2 * (x - y) + 1;
        }
    }
    all
}

#[test]
fn set_px_sets_one_pixel() {
    let mut buf = window();
    set_px(&mut buf, 3, 2, INK);
    assert_eq!(buf[2 * WIDTH + 3], INK);
    assert_eq!(inked(&buf).len(), 1);
}

#[test]
fn set_px_clips() {
    let mut buf = window();
    for (x, y) in [(-1, 0), (0, -1), (800, 0), (0, 800), (isize::MIN, 5), (5, isize::MAX)] {
        set_px(&mut buf, x, y, INK);
    }
    assert!(inked(&buf).is_empty());
    set_px(&mut buf, 0, 0, INK);
    set_px(&mut buf, 799, 799, INK);
    assert_eq!(inked(&buf), BTreeSet::from([(0, 0), (799, 799)]));
}

#[test]
fn set_px_outside_needs_no_buffer() {
    let mut buf = Vec::new();
    set_px(&mut buf, -1, 3, INK);
    assert!(buf.is_empty());
}

#[test]
fn dot_of_radius_zero_and_one() {
    let mut buf = window();
    fill_dot(&mut buf, 10, 10, 0, INK);
    assert_eq!(inked(&buf), BTreeSet::from([(10, 10)]));
    fill_dot(&mut buf, 10, 10, 1, INK);
    assert_eq!(inked(&buf), BTreeSet::from([(10, 10), (9, 10), (11, 10), (10, 9), (10, 11)]));
}

#[test]
fn dot_of_negative_radius_is_empty() {
    let mut buf = window();
    fill_dot(&mut buf, 10, 10, -3, INK);
    assert!(inked(&buf).is_empty());
}

#[test]
fn dots_are_discs() {
    for r in 0..8isize {
        for (cx, cy) in [(400, 400), (0, 0), (799, 2), (-3, 805)] {
            let mut buf = window();
            fill_dot(&mut buf, cx, cy, r, INK);
            let mut all = Vec::new();
            for y in cy - r..=cy + r {
                for x in cx - r..=cx + r {
                    if (x - cx) * (x - cx) + (y - cy) * (y - cy) <= r * r {
                        all.push((x, y));
                    }
                }
            }
            assert_eq!(inked(&buf), clipped(all));
        }
    }
}

#[test]
fn lines_go_all_the_way() {
    let mut buf = window();
    draw_hline(&mut buf, 5, INK);
    assert_eq!(inked(&buf), clipped((0..800).map(|x| (x, 5))));
    let mut buf = window();
    draw_vline(&mut buf, 799, INK);
    assert_eq!(inked(&buf), clipped((0..800).map(|y| (799, y))));
}

#[test]
fn lines_outside_are_dropped() {
    let mut buf = window();
    draw_hline(&mut buf, 800, INK);
    draw_vline(&mut buf, 800, INK);
    draw_vline(&mut buf, usize::MAX, INK);
    assert!(inked(&buf).is_empty());
}

#[test]
fn circles_follow_the_midpoint_rule() {
    for r in -3..=60isize {
        let mut buf = window();
        draw_circle(&mut buf, 300, 400, r, INK);
        assert_eq!(inked(&buf), clipped(circle_by_steps(300, 400, r)), "radius {r}");
    }
    for (cx, cy, r) in [(400, 400, 400), (0, 0, 250), (790, -20, 77)] {
        let mut buf = window();
        draw_circle(&mut buf, cx, cy, r, INK);
        assert_eq!(inked(&buf), clipped(circle_by_steps(cx, cy, r)));
    }
}

#[test]
fn small_circles() {
    let mut buf = window();
    draw_circle(&mut buf, 10, 10, 0, INK);
    assert_eq!(inked(&buf), BTreeSet::from([(10, 10)]));
    let mut buf = window();
    draw_circle(&mut buf, 10, 10, 1, INK);
    assert_eq!(inked(&buf), BTreeSet::from([(9, 10), (11, 10), (10, 9), (10, 11)]));
}

#[test]
fn circles_keep_their_distance_and_symmetry() {
    let r: isize = 37;
    let mut buf = window();
    draw_circle(&mut buf, 400, 400, r, INK);
    let all = inked(&buf);
    for &(x, y) in &all {
        let (dx, dy) = (x - 400, y - 400);
        assert!((dx * dx + dy * dy - r * r).abs() <= r);
        for p in [(-dx, dy), (dx, -dy), (dy, dx)] {
            assert!(all.contains(&(400 + p.0, 400 + p.1)));
        }
    }
    for p in [(400 + r, 400), (400 - r, 400), (400, 400 + r), (400, 400 - r)] {
        assert!(all.contains(&p));
    }
}

#[test]
fn glyphs_have_double_cells() {
    let rows: [(char, [u8; 7]); 5] = [
        ('Q', [0b01110, 0b10001, 0b10001, 0b10001, 0b10101, 0b10010, 0b01101]),
        ('1', [0b00100, 0b01100, 0b00100, 0b00100, 0b00100, 0b00100, 0b01110]),
        ('2', [0b01110, 0b10001, 0b00001, 0b00110, 0b01000, 0b10000, 0b11111]),
        ('3', [0b11110, 0b00001, 0b00001, 0b01110, 0b00001, 0b00001, 0b11110]),
        ('4', [0b00010, 0b00110, 0b01010, 0b10010, 0b11111, 0b00010, 0b00010]),
    ];
    for (ch, rows) in rows {
        let mut all = Vec::new();
        for (ry, row) in rows.iter().enumerate() {
            for rx in 0..5isize {
                if row & (1 << (4 - rx)) != 0 {
                    let (x, y) = (50 + rx, 60 + ry as isize);
                    all.extend([(x, y), (x + 1, y), (x, y + 1), (x + 1, y + 1)]);
                }
            }
        }
        let mut buf = window();
        draw_glyph(&mut buf, 50, 60, ch, INK);
        assert_eq!(inked(&buf), clipped(all), "{ch}");
    }
}

#[test]
fn the_upper_left_cell_of_a_one() {
    let mut buf = window();
    draw_glyph(&mut buf, 0, 0, '1', INK);
    assert_eq!(buf[2], INK);
    assert_eq!(buf[3], INK);
    assert_eq!(buf[1], 0);
    assert_eq!(buf[4], 0);
}

#[test]
fn other_characters_have_no_glyph() {
    let mut buf = window();
    draw_glyph(&mut buf, 50, 60, '5', INK);
    draw_glyph(&mut buf, isize::MAX, isize::MAX, 'x', INK);
    assert!(inked(&buf).is_empty());
}

#[test]
fn labels_step_by_eight() {
    let mut label = window();
    draw_label(&mut label, 760, 40, "Q1 4", INK);
    let mut glyphs = window();
    draw_glyph(&mut glyphs, 760, 40, 'Q', INK);
    draw_glyph(&mut glyphs, 768, 40, '1', INK);
    draw_glyph(&mut glyphs, 784, 40, '4', INK);
    assert_eq!(label, glyphs);
}

#[test]
fn smiles_have_outline_eyes_and_mouth() {
    for (cx, cy) in [(100, 100), (3, 797)] {
        let mut all = circle_by_steps(cx, cy, 10);
        for (ex, ey) in [(cx - 4, cy - 3), (cx + 4, cy - 3)] {
            all.extend([(ex, ey), (ex - 1, ey), (ex + 1, ey), (ex, ey - 1), (ex, ey + 1)]);
        }
        for i in -4..=4 {
            let a = (i as f64) * 0.22 + std::f64::consts::FRAC_PI_2;
            let x = cx + (a.cos() * 5.0).round() as isize;
            let y = cy + (a.sin() * 5.0).round() as isize;
            all.extend([(x, y), (x + 1, y)]);
        }
        let mut buf = window();
        draw_smile(&mut buf, cx, cy, INK);
        assert_eq!(inked(&buf), clipped(all));
    }
}

#[test]
fn progress_arcs_are_beads() {
    let offsets = vec![Pixel { x: 0, y: -390 }, Pixel { x: 10, y: -390 }, Pixel { x: 390, y: 0 }];
    let mut buf = window();
    draw_progress_arc(&mut buf, 400, 400, &offsets, 2, INK);
    let mut all = Vec::new();
    for dx in -1..=1 {
        for dy in -1..=1 {
            all.extend([(400 + dx, 10 + dy), (410 + dx, 10 + dy)]);
        }
    }
    assert_eq!(inked(&buf), clipped(all));
}

#[test]
fn progress_arcs_may_be_empty() {
    let mut buf = window();
    draw_progress_arc(&mut buf, 400, 400, &vec![Pixel { x: 0, y: 0 }], 0, INK);
    draw_progress_arc(&mut buf, 400, 400, &vec![], -1, INK);
    assert!(inked(&buf).is_empty());
}

#[test]
fn gradient_colours() {
    assert_eq!(blue_red_gradient(0, 255), 0x0000ff);
    assert_eq!(blue_red_gradient(255, 0), 0xff0000);
    assert_eq!(blue_red_gradient(0x12, 0x34), 0x120034);
}

#[test]
fn the_last_colour_stays() {
    let mut buf = window();
    fill_dot(&mut buf, 20, 20, 3, 1);
    fill_dot(&mut buf, 20, 20, 3, INK);
    assert!(buf.iter().all(|&p| p == 0 || p == INK));
}
