use renderer::window::{pack_color, Color, Window};

const BLACK: Color = (0, 0, 0);
const WHITE: Color = (255, 255, 255);

fn lit(w: &Window) -> Vec<(usize, usize)> {
    let mut out = Vec::new();
    for y in 0..w.height {
        for x in 0..w.width {
            if w.buffer[y][x] != BLACK {
                out.push((x, y));
            }
        }
    }
    out
}

fn sorted(mut v: Vec<(usize, usize)>) -> Vec<(usize, usize)> {
    v.sort();
    v
}

#[test]
fn new_window_is_black_and_sized() {
    let w = Window::new(4, 3);
    assert_eq!(w.width, 4);
    assert_eq!(w.height, 3);
    assert_eq!(w.title, "Window");
    assert_eq!(w.buffer, vec![vec![BLACK; 4]; 3]);
    assert_eq!(w.frame, vec![0u32; 12]);
}

#[test]
fn new_empty_window() {
    let w = Window::new(0, 0);
    assert!(w.buffer.is_empty());
    assert!(w.frame.is_empty());
}

#[test]
fn set_title_replaces_title() {
    let mut w = Window::new(2, 2);
    w.set_title("Raytracer");
    assert_eq!(w.title, "Raytracer");
    assert_eq!(w.buffer, vec![vec![BLACK; 2]; 2]);
}

#[test]
fn set_buffer_replaces_pixels() {
    let mut w = Window::new(2, 2);
    let b = vec![vec![(1, 2, 3), (4, 5, 6)], vec![(7, 8, 9), (10, 11, 12)]];
    w.set_buffer(b.clone());
    assert_eq!(w.buffer, b);
    assert_eq!(w.width, 2);
    assert_eq!(w.height, 2);
}

#[test]
fn in_bounds_edges() {
    let w = Window::new(4, 3);
    assert!(w.in_bounds(0, 0));
    assert!(w.in_bounds(3, 2));
    assert!(!w.in_bounds(4, 0));
    assert!(!w.in_bounds(0, 3));
    assert!(!w.in_bounds(-1, 0));
    assert!(!w.in_bounds(0, -1));
    assert!(!w.in_bounds(i32::MIN, i32::MAX));
}

#[test]
fn plot_sets_one_pixel() {
    let mut w = Window::new(4, 3);
    w.plot(2, 1, (9, 8, 7));
    assert_eq!(w.buffer[1][2], (9, 8, 7));
    assert_eq!(lit(&w), vec![(2, 1)]);
}

#[test]
fn plot_overwrites_pixel() {
    let mut w = Window::new(2, 2);
    w.plot(1, 1, (1, 1, 1));
    w.plot(1, 1, (2, 2, 2));
    assert_eq!(w.buffer[1][1], (2, 2, 2));
}

#[test]
fn plot_in_bounds_inside_and_outside() {
    let mut w = Window::new(4, 3);
    w.plot_in_bounds(3, 2, WHITE);
    w.plot_in_bounds(4, 2, WHITE);
    w.plot_in_bounds(-1, 0, WHITE);
    w.plot_in_bounds(0, 3, WHITE);
    assert_eq!(lit(&w), vec![(3, 2)]);
}

#[test]
fn line_horizontal() {
    let mut w = Window::new(8, 4);
    w.plot_line([[1, 2], [5, 2]], WHITE);
    assert_eq!(lit(&w), vec![(1, 2), (2, 2), (3, 2), (4, 2), (5, 2)]);
}

#[test]
fn line_vertical_upwards() {
    let mut w = Window::new(4, 6);
    w.plot_line([[2, 5], [2, 1]], WHITE);
    assert_eq!(lit(&w), vec![(2, 1), (2, 2), (2, 3), (2, 4), (2, 5)]);
}

#[test]
fn line_shallow() {
    let mut w = Window::new(8, 4);
    w.plot_line([[0, 0], [5, 2]], WHITE);
    assert_eq!(
        sorted(lit(&w)),
        sorted(vec![(0, 0), (1, 0), (2, 1), (3, 1), (4, 2), (5, 2)])
    );
}

#[test]
fn line_shallow_reversed() {
    let mut w = Window::new(8, 4);
    w.plot_line([[5, 2], [0, 0]], WHITE);
    assert_eq!(
        sorted(lit(&w)),
        sorted(vec![(5, 2), (4, 2), (3, 1), (2, 1), (1, 0), (0, 0)])
    );
}

#[test]
fn line_steep() {
    let mut w = Window::new(4, 6);
    w.plot_line([[1, 4], [2, 0]], WHITE);
    assert_eq!(
        sorted(lit(&w)),
        sorted(vec![(1, 4), (1, 3), (1, 2), (2, 1), (2, 0)])
    );
}

#[test]
fn line_diagonal() {
    let mut w = Window::new(5, 5);
    w.plot_line([[0, 0], [3, 3]], WHITE);
    assert_eq!(lit(&w), vec![(0, 0), (1, 1), (2, 2), (3, 3)]);
}

#[test]
fn line_single_point() {
    let mut w = Window::new(5, 5);
    w.plot_line([[3, 3], [3, 3]], WHITE);
    assert_eq!(lit(&w), vec![(3, 3)]);
}

#[test]
fn line_clipped_at_window_edge() {
    let mut w = Window::new(4, 3);
    w.plot_line([[-2, 1], [2, 1]], WHITE);
    assert_eq!(lit(&w), vec![(0, 1), (1, 1), (2, 1)]);
}

#[test]
fn line_entirely_outside() {
    let mut w = Window::new(4, 3);
    w.plot_line([[-10, -10], [-3, -7]], WHITE);
    assert!(lit(&w).is_empty());
}

#[test]
fn line_with_far_endpoints_terminates() {
    let mut w = Window::new(4, 3);
    w.plot_line([[i32::MIN, 1], [i32::MIN + 6, 1]], WHITE);
    assert!(lit(&w).is_empty());
    w.plot_line([[1, i32::MAX - 4], [1, i32::MAX]], WHITE);
    assert!(lit(&w).is_empty());
}

#[test]
fn line_pixel_count_is_longer_extent_plus_one() {
    // every pixel of a line is distinct, so in a large enough window the
    // number of lit pixels is max(dx, dy) + 1, both ends included
    let cases = [[[0, 0], [9, 4]], [[9, 0], [0, 7]], [[3, 8], [5, 0]], [[0, 5], [9, 5]]];
    for c in cases {
        let mut w = Window::new(10, 10);
        w.plot_line(c, WHITE);
        let dx = (c[1][0] - c[0][0]).abs();
        let dy = (c[1][1] - c[0][1]).abs();
        let l = lit(&w);
        assert_eq!(l.len() as i32, dx.max(dy) + 1);
        assert!(l.contains(&(c[0][0] as usize, c[0][1] as usize)));
        assert!(l.contains(&(c[1][0] as usize, c[1][1] as usize)));
    }
}

#[test]
fn line_stays_within_half_pixel() {
    let (x0, y0, x1, y1) = (1i64, 2i64, 8i64, 6i64);
    let mut w = Window::new(10, 10);
    w.plot_line([[x0 as i32, y0 as i32], [x1 as i32, y1 as i32]], WHITE);
    let m = (x1 - x0).abs().max((y1 - y0).abs());
    for (x, y) in lit(&w) {
        let (x, y) = (x as i64, y as i64);
        let cross = (y - y0) * (x1 - x0) - (x - x0) * (y1 - y0);
        assert!(2 * cross.abs() <= m);
    }
}

#[test]
fn pack_color_layout() {
    assert_eq!(pack_color((0x12, 0x34, 0x56)), 0x0012_3456);
    assert_eq!(pack_color((255, 255, 255)), 0x00ff_ffff);
    assert_eq!(pack_color((0, 0, 0)), 0);
    assert_eq!(pack_color((1, 0, 0)), 0x0001_0000);
}

#[test]
fn update_frame_packs_and_clears() {
    let mut w = Window::new(3, 2);
    w.plot(0, 0, (1, 2, 3));
    w.plot(2, 1, (255, 0, 128));
    w.plot(1, 0, (0, 9, 0));
    w.update_frame();
    assert_eq!(w.frame, vec![0x0001_0203, 0x0000_0900, 0, 0, 0, 0x00ff_0080]);
    assert_eq!(w.buffer, vec![vec![BLACK; 3]; 2]);
    w.update_frame();
    assert_eq!(w.frame, vec![0u32; 6]);
}

#[test]
fn wireframe_draws_three_edges() {
    let mut w = Window::new(6, 6);
    w.plot_wireframe(&vec![[(0, 0), (4, 0), (0, 4)]], WHITE);
    let mut expected = Window::new(6, 6);
    expected.plot_line([[0, 0], [4, 0]], WHITE);
    expected.plot_line([[4, 0], [0, 4]], WHITE);
    expected.plot_line([[0, 4], [0, 0]], WHITE);
    assert_eq!(w.buffer, expected.buffer);
    assert!(w.buffer[0][4] == WHITE && w.buffer[4][0] == WHITE && w.buffer[2][2] == WHITE);
    assert_eq!(w.buffer[1][1], BLACK);
}

#[test]
fn wireframe_empty_list_draws_nothing() {
    let mut w = Window::new(3, 3);
    w.plot_wireframe(&vec![], WHITE);
    assert!(lit(&w).is_empty());
}

#[test]
fn line_moves_with_its_ends() {
    let shift = |p: Vec<(usize, usize)>, a: usize, b: usize| -> Vec<(usize, usize)> {
        p.into_iter().map(|(x, y)| (x + a, y + b)).collect()
    };
    let mut w = Window::new(12, 12);
    w.plot_line([[0, 1], [5, 4]], WHITE);
    let mut moved = Window::new(12, 12);
    moved.plot_line([[3, 6], [8, 9]], WHITE);
    assert_eq!(sorted(lit(&moved)), sorted(shift(lit(&w), 3, 5)));
}

#[test]
fn packed_channels_read_back() {
    for c in [(0u8, 0u8, 0u8), (1, 2, 3), (255, 0, 128), (17, 255, 9)] {
        let v = pack_color(c);
        assert_eq!(((v >> 16) as u8, ((v >> 8) & 0xff) as u8, (v & 0xff) as u8), c);
        assert!(v >> 24 == 0);
    }
}
