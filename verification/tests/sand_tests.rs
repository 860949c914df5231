use rlibs::sand::{Sand, SandGrid, BRUSH_SIZE, COUNT};

fn grains(g: &SandGrid) -> usize {
    let mut n = 0;
    for r in 0..COUNT {
        for c in 0..COUNT {
            if g.cell(r, c).present {
                n += 1;
            }
        }
    }
    n
}

/// The brush as drawn by the midpoint circle walk, computed directly.
fn brush_cells(row: usize, col: usize) -> Vec<Vec<bool>> {
    let mut m = vec![vec![false; COUNT]; COUNT];
    m[row][col] = true;
    let mut set = |x: i32, y: i32, m: &mut Vec<Vec<bool>>| {
        if x >= 0 && (x as usize) < COUNT && y >= 0 && (y as usize) < COUNT {
            m[y as usize][x as usize] = true;
        }
    };
    let mut x = BRUSH_SIZE as i32;
    let mut y = 0i32;
    let mut d = 1 - x;
    let (col, row) = (col as i32, row as i32);
    while x >= y {
        for i in -x..x {
            set(col + i, row + y, &mut m);
            set(col + i, row - y, &mut m);
        }
        for i in -y..y {
            set(col + i, row + x, &mut m);
            set(col + i, row - x, &mut m);
        }
        y += 1;
        if d <= 0 {
            d += 2 * y + 1;
        } else {
            x -= 1;
            d += 2 * (y - x) + 1;
        }
    }
    m
}

#[test]
fn new_grid_is_empty() {
    let g = SandGrid::new();
    assert_eq!(grains(&g), 0);
    assert_eq!(g.cell(0, 0), Sand { present: false, falling: false });
    assert_eq!(g.cell(COUNT - 1, COUNT - 1), Sand { present: false, falling: false });
}

#[test]
fn set_pixel_marks_falling_grain() {
    let mut g = SandGrid::new();
    g.set_pixel(3, 7);
    assert_eq!(g.cell(7, 3), Sand { present: true, falling: true });
    assert_eq!(grains(&g), 1);
}

#[test]
fn set_pixel_outside_grid_does_nothing() {
    let mut g = SandGrid::new();
    g.set_pixel(-1, 5);
    g.set_pixel(5, -1);
    g.set_pixel(COUNT as i32, 0);
    g.set_pixel(0, COUNT as i32);
    assert_eq!(grains(&g), 0);
}

#[test]
fn brush_paints_the_midpoint_disc() {
    for &(row, col) in [(200usize, 200usize), (0, 0), (3, COUNT - 2), (COUNT - 1, 5)].iter() {
        let mut g = SandGrid::new();
        g.paint_brush(row, col);
        let expected = brush_cells(row, col);
        for r in 0..COUNT {
            for c in 0..COUNT {
                assert_eq!(g.cell(r, c).present, expected[r][c], "cell {} {}", r, c);
            }
        }
    }
}

#[test]
fn brush_covers_expected_area_in_open_field() {
    let mut g = SandGrid::new();
    g.paint_brush(200, 200);
    assert_eq!(grains(&g), 328);
    assert_eq!(g.cell(200, 200), Sand { present: true, falling: true });
    assert!(g.cell(200, 190).present);
    assert!(!g.cell(200, 210).present);
    assert!(g.cell(190, 202).present);
    assert!(!g.cell(190, 203).present);
    assert!(!g.cell(189, 200).present);
}

#[test]
fn brush_outside_grid_does_nothing() {
    let mut g = SandGrid::new();
    g.paint_brush(COUNT, 3);
    g.paint_brush(3, COUNT);
    assert_eq!(grains(&g), 0);
}

#[test]
fn grain_falls_straight_down() {
    let mut g = SandGrid::new();
    g.set_pixel(5, 5);
    g.step();
    assert_eq!(g.cell(5, 5), Sand { present: false, falling: true });
    assert_eq!(g.cell(6, 5), Sand { present: true, falling: false });
    assert_eq!(grains(&g), 1);
}

#[test]
fn grain_slides_down_left_when_blocked() {
    let bottom = (COUNT - 1) as i32;
    let mut g = SandGrid::new();
    g.set_pixel(10, bottom - 1);
    g.set_pixel(10, bottom);
    g.step();
    assert!(!g.cell(COUNT - 2, 10).present);
    assert!(g.cell(COUNT - 1, 9).present);
    assert!(g.cell(COUNT - 1, 10).present);
}

#[test]
fn grain_slides_down_right_when_left_blocked() {
    let bottom = (COUNT - 1) as i32;
    let mut h = SandGrid::new();
    h.set_pixel(10, bottom - 2);
    h.set_pixel(9, bottom - 1);
    h.set_pixel(10, bottom - 1);
    for c in 8..12 {
        h.set_pixel(c, bottom);
    }
    h.step();
    assert!(h.cell(COUNT - 2, 11).present);
    assert!(!h.cell(COUNT - 3, 10).present);
    assert_eq!(grains(&h), 7);
}

#[test]
fn grain_at_right_edge_does_not_leave_grid() {
    let bottom = (COUNT - 1) as i32;
    let last = (COUNT - 1) as i32;
    let mut g = SandGrid::new();
    g.set_pixel(last, bottom - 1);
    g.set_pixel(last, bottom);
    g.set_pixel(last - 1, bottom);
    g.step();
    assert!(g.cell(COUNT - 2, COUNT - 1).present);
    assert_eq!(grains(&g), 3);
}

#[test]
fn grain_on_bottom_row_stays() {
    let mut g = SandGrid::new();
    g.set_pixel(0, (COUNT - 1) as i32);
    g.step();
    assert!(g.cell(COUNT - 1, 0).present);
    assert_eq!(grains(&g), 1);
}

#[test]
fn step_conserves_sand() {
    let mut g = SandGrid::new();
    g.paint_brush(100, 5);
    g.paint_brush(390, 390);
    g.paint_brush(250, 0);
    let before = grains(&g);
    for _ in 0..50 {
        g.step();
        assert_eq!(grains(&g), before);
    }
}

#[test]
fn present_cells_lists_grains_row_by_row() {
    let mut g = SandGrid::new();
    g.set_pixel(4, 2);
    g.set_pixel(1, 2);
    g.set_pixel(7, 0);
    assert_eq!(g.present_cells(), vec![(0, 7), (2, 1), (2, 4)]);
    assert_eq!(SandGrid::new().present_cells(), Vec::<(usize, usize)>::new());
}

#[test]
fn painting_twice_same_as_once() {
    let mut once = SandGrid::new();
    once.set_pixel(100, 50);
    once.paint_brush(60, 95);
    let mut twice = SandGrid::new();
    twice.set_pixel(100, 50);
    twice.paint_brush(60, 95);
    twice.paint_brush(60, 95);
    for r in 0..COUNT {
        for c in 0..COUNT {
            assert_eq!(once.cell(r, c), twice.cell(r, c));
        }
    }
}

#[test]
fn painting_keeps_existing_sand() {
    let mut g = SandGrid::new();
    g.set_pixel(3, 3);
    g.step();
    let before = g.present_cells();
    g.paint_brush(300, 300);
    for (r, c) in before {
        assert!(g.cell(r, c).present);
    }
}

#[test]
fn step_keeps_falling_flags() {
    let mut g = SandGrid::new();
    g.paint_brush(50, 50);
    let flags: Vec<bool> = (0..COUNT * COUNT).map(|i| g.cell(i / COUNT, i % COUNT).falling).collect();
    g.step();
    g.step();
    let after: Vec<bool> = (0..COUNT * COUNT).map(|i| g.cell(i / COUNT, i % COUNT).falling).collect();
    assert_eq!(flags, after);
}
