use vcore::fb::font::Font;
use vcore::fb::terminal::Terminal;
use vcore::fb::{DrawTarget, Framebuffer};

/// A font of glyphs two pixels wide and two high, in which only `A` has
/// lit pixels: the left one in its first row and the right one in its
/// second.
fn tiny_font() -> Font {
    let mut data = vec![0u8; 256];
    data[130] = 0b01;
    data[131] = 0b10;
    Font::new(data, 2, 2)
}

fn surface(width: usize, height: usize) -> Framebuffer {
    Framebuffer::new(vec![0u32; width * height], width, height, width).unwrap()
}

fn terminal() -> Terminal {
    Terminal::new(surface(16, 16), tiny_font())
}

#[test]
fn a_framebuffer_needs_whole_rows() {
    assert!(Framebuffer::new(vec![0; 12], 3, 3, 4).is_some());
    assert!(Framebuffer::new(vec![0; 11], 3, 3, 4).is_none());
    assert!(Framebuffer::new(vec![0; 12], 5, 3, 4).is_none());
    assert!(Framebuffer::new(Vec::new(), 0, 0, 0).is_some());
}

#[test]
fn a_pixel_is_drawn_where_the_surface_has_one() {
    let mut fb = Framebuffer::new(vec![0; 12], 3, 3, 4).unwrap();
    fb.draw_pixel(2, 1, 5);
    assert_eq!(fb.pixels[6], 5);
    fb.draw_pixel(3, 1, 6);
    fb.draw_pixel(0, 3, 6);
    fb.draw_pixel(usize::MAX, usize::MAX, 6);
    assert_eq!(fb.pixels.iter().filter(|&&p| p != 0).count(), 1);
}

#[test]
fn clearing_and_scrolling() {
    let mut fb = surface(2, 3);
    fb.clear(7);
    assert_eq!(fb.pixels, vec![7; 6]);
    fb.draw_pixel(0, 1, 1);
    fb.draw_pixel(1, 2, 2);
    fb.scroll(2);
    assert_eq!(fb.pixels, vec![1, 7, 7, 2, 0, 0]);
    fb.scroll(0);
    assert_eq!(fb.pixels, vec![1, 7, 7, 2, 0, 0]);
    fb.scroll(6);
    assert_eq!(fb.pixels, vec![0; 6]);
    fb.clear(3);
    fb.scroll(usize::MAX);
    assert_eq!(fb.pixels, vec![0; 6]);
}

#[test]
fn glyphs_are_found_by_character() {
    let font = tiny_font();
    assert_eq!(font.glyph('A'), Some(&[0b01u8, 0b10][..]));
    assert_eq!(font.glyph(' '), Some(&[0u8, 0][..]));
    assert_eq!(font.glyph('\u{7f}'), Some(&[0u8, 0][..]));
    assert_eq!(font.glyph('\u{80}'), None);
    assert_eq!(font.glyph('é'), None);
    let short = Font::new(vec![0u8; 131], 2, 2);
    assert!(short.glyph('@').is_some());
    assert!(short.glyph('A').is_none());
}

#[test]
fn a_glyph_is_drawn_pixel_by_pixel() {
    let font = tiny_font();
    let mut fb = surface(8, 8);
    font.draw_char(&mut fb, 'A', 1, 1, 9, 7, 2);
    let row = |y: usize| fb.pixels[y * 8..y * 8 + 8].to_vec();
    assert_eq!(row(0), vec![0; 8]);
    assert_eq!(row(1), vec![0, 9, 9, 7, 7, 0, 0, 0]);
    assert_eq!(row(2), vec![0, 9, 9, 7, 7, 0, 0, 0]);
    assert_eq!(row(3), vec![0, 7, 7, 9, 9, 0, 0, 0]);
    assert_eq!(row(4), vec![0, 7, 7, 9, 9, 0, 0, 0]);
    assert_eq!(row(5), vec![0; 8]);
}

#[test]
fn a_glyph_is_cut_at_the_edge_and_missing_glyphs_draw_nothing() {
    let font = tiny_font();
    let mut fb = surface(4, 4);
    font.draw_char(&mut fb, 'A', 3, 3, 9, 7, 2);
    assert_eq!(fb.pixels[15], 9);
    assert_eq!(fb.pixels.iter().filter(|&&p| p != 0).count(), 1);
    font.draw_char(&mut fb, 'é', 0, 0, 9, 7, 2);
    font.draw_char(&mut fb, 'A', 0, 0, 9, 7, 0);
    assert_eq!(fb.pixels.iter().filter(|&&p| p != 0).count(), 1);
}

#[test]
fn a_new_terminal() {
    let t = terminal();
    assert_eq!((t.x, t.y), (0, 0));
    assert_eq!((t.max_x, t.max_y), (4, 2));
    assert_eq!((t.fg, t.bg), (0xffffff, 0));
    assert_eq!((t.scale, t.line_spacing, t.char_width), (2, 4, 2));
}

#[test]
fn colours_are_set() {
    let mut t = terminal();
    t.set_fg(1);
    t.set_bg(2);
    assert_eq!((t.fg, t.bg), (1, 2));
    t.put_char('A');
    assert_eq!(t.fb.pixels[0], 1);
    assert_eq!(t.fb.pixels[2], 2);
}

#[test]
fn characters_move_the_cursor() {
    let mut t = terminal();
    t.put_char('A');
    assert_eq!((t.x, t.y), (1, 0));
    assert_eq!(&t.fb.pixels[0..4], &[0xffffff, 0xffffff, 0, 0]);
    assert_eq!(&t.fb.pixels[32..36], &[0, 0, 0xffffff, 0xffffff]);
    t.put_char('A');
    assert_eq!((t.x, t.y), (2, 0));
    assert_eq!(&t.fb.pixels[0..6], &[0xffffff, 0xffffff, 0xffffff, 0xffffff, 0, 0]);
    t.put_char('\r');
    assert_eq!((t.x, t.y), (0, 0));
    t.put_char('\u{7}');
    assert_eq!((t.x, t.y), (0, 0));
    t.put_char('\t');
    assert_eq!((t.x, t.y), (4, 0));
    assert_eq!(&t.fb.pixels[0..4], &[0, 0, 0, 0]);
    t.put_char('A');
    assert_eq!((t.x, t.y), (1, 1));
    assert_eq!(t.fb.pixels[8 * 16], 0xffffff);
}

#[test]
fn backspace_clears_the_cell_before_the_cursor() {
    let mut t = terminal();
    t.put_char('\u{8}');
    assert_eq!((t.x, t.y), (0, 0));
    t.put_char('A');
    t.put_char('\u{8}');
    assert_eq!((t.x, t.y), (0, 0));
    assert!(t.fb.pixels.iter().all(|&p| p == 0));
}

#[test]
fn the_last_line_scrolls() {
    let mut t = terminal();
    t.put_char('\n');
    assert_eq!((t.x, t.y), (0, 1));
    t.put_char('A');
    assert_eq!(t.fb.pixels[8 * 16], 0xffffff);
    t.put_char('\n');
    assert_eq!((t.x, t.y), (0, 1));
    assert_eq!(t.fb.pixels[0], 0xffffff);
    assert!(t.fb.pixels[8 * 16..].iter().all(|&p| p == 0));
    t.put_char('\n');
    assert!(t.fb.pixels.iter().all(|&p| p == 0));
}

#[test]
fn text_is_written_character_by_character() {
    let mut t = terminal();
    t.write_str("AA\nA");
    assert_eq!((t.x, t.y), (1, 1));
    assert_eq!(&t.fb.pixels[0..4], &[0xffffff, 0xffffff, 0xffffff, 0xffffff]);
    assert_eq!(t.fb.pixels[8 * 16], 0xffffff);
}

#[test]
fn a_terminal_is_cleared_to_its_background() {
    let mut t = terminal();
    t.write_str("A\nA");
    t.set_bg(5);
    t.clear();
    assert_eq!((t.x, t.y), (0, 0));
    assert!(t.fb.pixels.iter().all(|&p| p == 5));
    t.scroll();
    assert!(t.fb.pixels[..8 * 16].iter().all(|&p| p == 5));
    assert!(t.fb.pixels[8 * 16..].iter().all(|&p| p == 0));
    assert_eq!((t.x, t.y), (0, 0));
}
