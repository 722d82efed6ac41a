use ansi_paint::colours_view::ColoursView;
use ansi_paint::editor::crlf_to_lf_exec;
use ansi_paint::input::Key;
use ansi_paint::rgb::RGB;
use ansi_paint::text::{parse_decimal_u8, parse_hex_field};

fn chars(s: &str) -> Vec<char> {
    s.chars().collect()
}

#[test]
fn rgb_constructors() {
    let c = RGB::new(1, 2, 3);
    assert_eq!((c.r, c.g, c.b, c.default), (1, 2, 3, false));
    let c = RGB::from_html(0x123456);
    assert_eq!((c.r, c.g, c.b, c.default), (0x12, 0x34, 0x56, false));
    let c = RGB::from_html(0xFF0A0B0C);
    assert_eq!((c.r, c.g, c.b), (0x0A, 0x0B, 0x0C));
}

#[test]
fn rgb_inverted_threshold() {
    let dark = RGB::new(128, 128, 128).get_inverted();
    assert_eq!((dark.r, dark.g, dark.b), (255, 255, 255));
    let bright = RGB::new(128, 128, 129).get_inverted();
    assert_eq!((bright.r, bright.g, bright.b), (0, 0, 0));
    assert!(!bright.default);
}

#[test]
fn rgb_html_string() {
    assert_eq!(RGB::new(0x12, 0xAB, 0x0F).to_html_string(), "#12AB0F");
    assert_eq!(RGB::new(0, 0, 0).to_html_string(), "#000000");
    let mut d = RGB::new(1, 2, 3);
    d.default = true;
    assert_eq!(d.to_html_string(), "default");
}

#[test]
fn rgb_equality_ignores_default_mark() {
    let mut d = RGB::new(1, 2, 3);
    d.default = true;
    assert!(d == RGB::new(1, 2, 3));
    assert!(RGB::new(1, 2, 3) != RGB::new(1, 2, 4));
}

#[test]
fn decimal_bytes() {
    assert_eq!(parse_decimal_u8(&chars("255")), Some(255));
    assert_eq!(parse_decimal_u8(&chars("256")), None);
    assert_eq!(parse_decimal_u8(&chars("+7")), Some(7));
    assert_eq!(parse_decimal_u8(&chars("007")), Some(7));
    assert_eq!(parse_decimal_u8(&chars("+")), None);
    assert_eq!(parse_decimal_u8(&chars("")), None);
    assert_eq!(parse_decimal_u8(&chars("-1")), None);
    assert_eq!(parse_decimal_u8(&chars("1a")), None);
    for s in ["0", "9", "+0", "99999", "12 ", "٣"] {
        assert_eq!(parse_decimal_u8(&chars(s)), s.parse::<u8>().ok());
    }
}

#[test]
fn hexadecimal_fields() {
    assert_eq!(parse_hex_field(&"#ff".to_string()), Some(255));
    assert_eq!(parse_hex_field(&"##10".to_string()), Some(16));
    assert_eq!(parse_hex_field(&"".to_string()), None);
    assert_eq!(parse_hex_field(&"#".to_string()), None);
    assert_eq!(parse_hex_field(&"#+a".to_string()), Some(10));
    assert_eq!(parse_hex_field(&"#xyz".to_string()), None);
    assert_eq!(parse_hex_field(&"FFFFFFFF".to_string()), Some(u32::MAX));
    assert_eq!(parse_hex_field(&"100000000".to_string()), None);
    assert_eq!(parse_hex_field(&"d123456".to_string()), Some(0xd123456));
}

#[test]
fn crlf_becomes_lf() {
    assert_eq!(crlf_to_lf_exec(&"a\r\nb\r\r\n\r".to_string()), "a\nb\r\n\r");
    assert_eq!(crlf_to_lf_exec(&"".to_string()), "");
}

#[test]
fn palette_starts_black_on_white() {
    let v = ColoursView::new();
    assert_eq!(v.colours.len(), 16);
    assert!(v.colours[1] == RGB::new(0xff, 0xff, 0x01));
    assert!(v.colours[15] == RGB::new(0, 0, 0));
    assert!(v.fg == RGB::new(0, 0, 0) && v.bg == RGB::new(255, 255, 255));
    assert_eq!((v.cur_x, v.cur_y, v.inp_fg, v.inp_bg), (1, 1, 0, 0));
    assert!(v.is_wf());
}

#[test]
fn palette_cursor_and_selection() {
    let mut v = ColoursView::new();
    v.handle_event(Key::Left);
    v.handle_event(Key::Up);
    assert_eq!((v.cur_x, v.cur_y), (1, 1));
    v.handle_event(Key::Right);
    v.handle_event(Key::Char('\n'));
    assert!(v.fg == RGB::new(0xff, 0xff, 0x01));
    v.handle_event(Key::Down);
    v.handle_event(Key::Backspace);
    assert!(v.bg == RGB::new(0x33, 0x00, 0x99));
    for _ in 0..6 {
        v.handle_event(Key::Right);
        v.handle_event(Key::Down);
    }
    assert_eq!((v.cur_x, v.cur_y), (4, 4));
    v.handle_event(Key::Char('r'));
    assert!(v.fg.default);
    v.handle_event(Key::Char('R'));
    assert!(v.bg.default);
    v.handle_event(Key::Char('r'));
    assert!(!v.fg.default);
}

#[test]
fn palette_typed_colour() {
    let mut v = ColoursView::new();
    v.handle_event(Key::Char('#'));
    assert_eq!(v.inp_buffer, "#000000");
    assert_eq!(v.inp_fg, 1);
    v.handle_event(Key::Char('~'));
    assert_eq!(v.inp_bg, 0);
    for c in "00ff0".chars() {
        v.handle_event(Key::Char(c));
    }
    assert_eq!(v.inp_fg, 6);
    assert_eq!(v.inp_buffer, "#00ff00");
    v.handle_event(Key::Char('x'));
    assert_eq!(v.inp_fg, 6);
    v.handle_event(Key::Char('A'));
    assert_eq!(v.inp_fg, 0);
    assert_eq!(v.inp_buffer, "#00ff0A");
    assert!(v.fg == RGB::new(0x00, 0xff, 0x0a));
    assert!(v.is_wf());
}

#[test]
fn palette_typed_over_default() {
    let mut v = ColoursView::new();
    v.handle_event(Key::Char('R'));
    v.handle_event(Key::Char('~'));
    assert_eq!(v.inp_buffer, "default");
    for c in "123456".chars() {
        v.handle_event(Key::Char(c));
    }
    assert_eq!(v.inp_buffer, "d123456");
    assert_eq!(v.inp_bg, 0);
    assert!(v.bg == RGB::new(0x12, 0x34, 0x56) && !v.bg.default);
}

#[test]
fn palette_draw() {
    let mut v = ColoursView::new();
    v.handle_event(Key::Char('#'));
    let s = v.draw(5, 3);
    let fg = |c: &RGB| format!("\x1b[38;2;{};{};{}m", c.r, c.g, c.b);
    let bg = |c: &RGB| format!("\x1b[48;2;{};{};{}m", c.r, c.g, c.b);
    let mut want = String::new();
    for row in 0..4 {
        want += &format!("\x1b[{};5H\x1b[49m", 3 + row);
        for k in 0..4 {
            want += &fg(&v.colours[row * 4 + k]);
            want += "█";
        }
    }
    let sel = v.colours[0];
    want += &format!("\x1b[3;5H{}{}╳", fg(&sel.get_inverted()), bg(&sel));
    want += &format!("\x1b[7;5H{}{}#000000", bg(&v.fg), fg(&v.fg.get_inverted()));
    want += &format!("\x1b[8;5H{}{}#FFFFFF", bg(&v.bg), fg(&v.bg.get_inverted()));
    assert_eq!(s, want);
}

#[test]
fn rgb_sequences() {
    assert_eq!(RGB::new(1, 20, 255).to_fg(), "\x1b[38;2;1;20;255m");
    assert_eq!(RGB::new(0, 0, 7).to_bg(), "\x1b[48;2;0;0;7m");
}

#[test]
fn html_string_reads_back() {
    for c in [RGB::new(0, 0, 0), RGB::new(0x12, 0xAB, 0x0F), RGB::new(255, 255, 255)] {
        let n = parse_hex_field(&c.to_html_string()).unwrap();
        assert!(RGB::from_html(n) == c);
        assert_eq!(n, u32::from_str_radix(c.to_html_string().trim_start_matches('#'), 16).unwrap());
    }
    for n in [0u32, 0xABCDEF, 0xFF123456, 0x00000A0B] {
        assert_eq!(RGB::from_html(n).to_html_string(), format!("#{:06X}", n & 0xFFFFFF));
    }
}
