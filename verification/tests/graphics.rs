use knightos::user_interface::graphics::helper::{Color, GraphicsHelper, Point};
use knightos::user_interface::graphics::render_lines;
use knightos::user_interface::graphics::text::TextManager;
use knightos::utils::NotInitError;
use knightos::BootConfig;

fn config(width: u32, height: u32) -> BootConfig {
    BootConfig { fb_addr: 0xFD000000, fb_width: width, fb_height: height, fb_pitch: width * 3, fb_bpp: 24, mem_upper: 0 }
}

fn helper(width: u32, height: u32) -> GraphicsHelper {
    GraphicsHelper::new(Some(config(width, height))).unwrap()
}

fn lit(h: &GraphicsHelper, x: u32, y: u32) -> bool {
    let off = (y * h.boot_config().fb_pitch + x * 3) as usize;
    h.back_buffer()[off] != 0
}

fn lit_count(h: &GraphicsHelper) -> usize {
    h.back_buffer().chunks(3).filter(|p| p[0] != 0).count()
}

#[test]
fn new_without_boot_config_fails() {
    assert!(matches!(GraphicsHelper::new(None), Err(NotInitError)));
}

#[test]
fn new_allocates_cleared_back_buffer() {
    let h = helper(4, 3);
    assert_eq!(h.back_buffer().len(), 36);
    assert!(h.back_buffer().iter().all(|&b| b == 0));
    assert_eq!(h.boot_config(), config(4, 3));
}

#[test]
fn pixel_offset_formula_and_bounds() {
    let h = helper(10, 5);
    assert_eq!(h.get_pixel_offset(2, 3), Some(3 * 30 + 2 * 3));
    assert_eq!(h.get_pixel_offset(10, 0), None);
    assert_eq!(h.get_pixel_offset(0, 5), None);
}

#[test]
fn draw_pixel_stores_blue_green_red() {
    let mut h = helper(10, 5);
    h.draw_pixel(Point::new(1, 1), Color::new(10, 20, 30));
    assert_eq!(&h.back_buffer()[33..36], &[30, 20, 10]);
    h.draw_pixel(Point::new(10, 1), Color::new(1, 1, 1));
    h.draw_pixel(Point::new(1, 5), Color::new(1, 1, 1));
    assert_eq!(lit_count(&h), 1);
}

#[test]
fn draw_pixel_needs_room_for_three_bytes() {
    let cfg = BootConfig { fb_addr: 0, fb_width: 4, fb_height: 1, fb_pitch: 4, fb_bpp: 8, mem_upper: 0 };
    let mut h = GraphicsHelper::new(Some(cfg)).unwrap();
    h.draw_pixel(Point::new(1, 0), Color::new(9, 8, 7));
    assert_eq!(h.back_buffer().as_slice(), &[0, 7, 8, 9]);
    h.draw_pixel(Point::new(2, 0), Color::new(1, 2, 3));
    assert_eq!(h.back_buffer().as_slice(), &[0, 7, 8, 9]);
}

#[test]
fn clear_screen_zeroes_buffer() {
    let mut h = helper(4, 4);
    h.draw_pixel(Point::new(3, 3), Color::new(1, 2, 3));
    h.clear_screen();
    assert!(h.back_buffer().iter().all(|&b| b == 0));
    assert_eq!(h.back_buffer().len(), 48);
}

#[test]
fn draw_line_follows_bresenham() {
    let mut h = helper(10, 10);
    h.draw_line(Point::new(0, 0), Point::new(3, 1), Color::new(255, 0, 0));
    for &(x, y) in &[(0, 0), (1, 0), (2, 1), (3, 1)] {
        let off = (y * 30 + x * 3) as usize;
        assert_eq!(&h.back_buffer()[off..off + 3], &[0, 0, 255]);
    }
    assert_eq!(h.back_buffer().iter().filter(|&&b| b != 0).count(), 4);
}

#[test]
fn draw_line_backwards_and_steep_joins_endpoints() {
    let mut h = helper(10, 10);
    h.draw_line(Point::new(5, 7), Point::new(4, 1), Color::new(0, 0, 255));
    assert!(lit(&h, 5, 7));
    assert!(lit(&h, 4, 1));
    assert_eq!(lit_count(&h), 7);
}

#[test]
fn draw_line_single_point() {
    let mut h = helper(5, 5);
    h.draw_line(Point::new(2, 2), Point::new(2, 2), Color::new(0, 0, 1));
    assert!(lit(&h, 2, 2));
    assert_eq!(lit_count(&h), 1);
}

#[test]
fn draw_line_drops_offscreen_points() {
    let mut h = helper(5, 5);
    h.draw_line(Point::new(0, 2), Point::new(9, 2), Color::new(0, 0, 1));
    assert_eq!(lit_count(&h), 5);
}

#[test]
fn point_and_color_conversions() {
    let p: Point = (3u32, 4u32).into();
    assert_eq!(p, Point::new(3, 4));
    assert_eq!(p + Point::new(1, 1), Point::new(4, 5));
    assert_eq!(&p + Point::new(2, 0), Point::new(5, 4));
    let mut q = Point::new(1, 1);
    assert_eq!(&mut q + Point::new(1, 2), Point::new(2, 3));
    let c: Color = (1u8, 2u8, 3u8).into();
    assert_eq!(c, Color::new(1, 2, 3));
}

fn font_with(c: char, rows: [u8; 16]) -> Vec<u8> {
    let mut font = vec![0u8; 4096];
    let start = (c as usize) * 16;
    font[start..start + 16].copy_from_slice(&rows);
    font
}

#[test]
fn lookup_char_reads_sixteen_rows_and_caps_code_points() {
    let mut font = vec![0u8; 4096];
    for (i, b) in font.iter_mut().enumerate() {
        *b = (i / 16) as u8;
    }
    assert_eq!(TextManager::lookup_char(&font, 'A'), &[65u8; 16]);
    assert_eq!(TextManager::lookup_char(&font, 'é'), &[233u8; 16]);
    assert_eq!(TextManager::lookup_char(&font, '€'), &[255u8; 16]);
}

#[test]
fn print_char_draws_lit_glyph_cells_in_white() {
    let mut rows = [0u8; 16];
    rows[0] = 0b1000_0001;
    rows[2] = 0b0100_0000;
    rows[15] = 0xFF;
    let font = font_with('x', rows);
    let mut h = helper(20, 20);
    h.print_char('x', &Point::new(3, 4), &font);
    assert!(lit(&h, 3, 4));
    assert!(lit(&h, 4, 6));
    assert_eq!(&h.back_buffer()[(4 * 60 + 9) as usize..(4 * 60 + 12) as usize], &[255, 255, 255]);
    // the last column and the last row of the glyph are not drawn
    assert_eq!(lit_count(&h), 2);
}

#[test]
fn render_lines_lays_out_text_rows() {
    let mut rows = [0u8; 16];
    rows[0] = 0b1000_0000;
    let mut font = font_with('a', rows);
    let b_start = ('b' as usize) * 16;
    font[b_start] = 0b1000_0000;
    let mut line0 = ['\0'; 230];
    line0[0] = 'a';
    line0[2] = 'b';
    let mut line1 = ['\0'; 230];
    line1[0] = 'b';
    let lines = vec![line0, line1, line0];
    let mut h = helper(40, 40);
    render_lines(&mut h, &lines, &font);
    assert!(lit(&h, 0, 0));
    assert!(lit(&h, 8, 0));
    assert!(lit(&h, 0, 16));
    // the third line would end past the bottom of the screen
    assert!(!lit(&h, 0, 32));
    assert_eq!(lit_count(&h), 3);
}

#[test]
fn text_manager_fills_lines_then_starts_new_ones() {
    let mut t = TextManager::new();
    assert_eq!(t.text_lines().len(), 0);
    t.add_char('!');
    assert_eq!(t.text_lines().len(), 0);
    t.add_char('a');
    assert_eq!(t.text_lines().len(), 1);
    assert_eq!(t.current_line_char_count(), 1);
    t.add_char('Z');
    t.add_char('7');
    assert_eq!(t.text_lines()[0][..4], ['a', 'Z', '7', '\0']);
    for _ in 0..227 {
        t.add_char('q');
    }
    assert_eq!(t.current_line_char_count(), 230);
    assert_eq!(t.text_lines().len(), 1);
    t.add_char('k');
    assert_eq!(t.text_lines().len(), 2);
    assert_eq!(t.current_line_char_count(), 1);
    assert_eq!(t.text_lines()[1][0], 'k');
    assert_eq!(t.text_lines()[1][1], '\0');
}

#[test]
fn print_char_twice_equals_once_and_only_whitens() {
    let mut rows = [0u8; 16];
    rows[1] = 0b1010_0000;
    rows[7] = 0b0000_0110;
    let font = font_with('k', rows);
    let mut h = helper(12, 20);
    h.draw_pixel(Point::new(0, 0), Color::new(1, 2, 3));
    let before = h.back_buffer().clone();
    h.print_char('k', &Point::new(2, 3), &font);
    let once = h.back_buffer().clone();
    h.print_char('k', &Point::new(2, 3), &font);
    assert_eq!(h.back_buffer(), &once);
    assert_eq!(once.len(), before.len());
    assert!(once.iter().zip(before.iter()).all(|(a, b)| a == b || *a == 255));
    assert_eq!(lit_count(&h), 5);
}

#[test]
fn text_layout_after_many_characters() {
    let mut t = TextManager::new();
    let mut typed = Vec::new();
    for i in 0..500u32 {
        let c = char::from(b'a' + (i % 26) as u8);
        t.add_char(c);
        typed.push(c);
        t.add_char(' ');
    }
    assert_eq!(t.text_lines().len(), (500 + 229) / 230);
    assert_eq!(t.current_line_char_count(), 500 - 230 * 2);
    for (k, c) in typed.iter().enumerate() {
        assert_eq!(t.text_lines()[k / 230][k % 230], *c);
    }
    assert!(t.text_lines()[2][40..].iter().all(|&c| c == '\0'));
}
