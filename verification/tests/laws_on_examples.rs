use ansi_paint::char_view::CharView;
use ansi_paint::colours_view::ColoursView;
use ansi_paint::editor::{crlf_to_lf_exec, Editor, Focus};
use ansi_paint::format_char::FmtChar;
use ansi_paint::image_view::{ImageView, Tool};
use ansi_paint::input::Key;
use ansi_paint::parser::{construct_buffer, make_char_sheet, make_data};
use ansi_paint::rgb::RGB;

#[test]
fn char_sheet_rows_join_to_text() {
    for text in ["ab\n\ncd\n\n", "", "\n", "x", "a\r\nb\n"] {
        let rows = make_char_sheet(text.to_string());
        let joined: Vec<String> = rows.iter().map(|r| r.iter().collect()).collect();
        assert_eq!(joined.join("\n"), text.trim_end_matches('\n'));
        assert!(rows.iter().all(|r| !r.contains(&'\n')));
        assert!(rows.last().map_or(true, |r| !r.is_empty()));
    }
}

#[test]
fn plain_text_is_white_on_black() {
    let rows = make_data("a\rb\nc".chars().collect());
    assert_eq!(rows.len(), 2);
    assert_eq!(rows[0].len(), 3);
    for row in &rows {
        for c in row {
            assert!(c.fg == RGB::new(255, 255, 255) && c.bg == RGB::new(0, 0, 0));
            assert!(c.ch != '\n');
        }
    }
}

#[test]
fn saved_picture_with_carriage_return_reads_back() {
    let cell = |ch, f: (u8, u8, u8), b: (u8, u8, u8)| FmtChar {
        ch,
        fg: RGB::new(f.0, f.1, f.2),
        bg: RGB::new(b.0, b.1, b.2),
    };
    let rows = vec![
        vec![cell('\r', (9, 9, 9), (0, 0, 0)), cell('q', (9, 9, 9), (0, 0, 0))],
        vec![],
        vec![cell('w', (255, 255, 255), (7, 7, 7))],
    ];
    let text = crlf_to_lf_exec(&construct_buffer(&rows));
    let back = make_data(text.chars().collect());
    assert_eq!(back.len(), 3);
    assert_eq!(back[0].len(), 2);
    assert_eq!(back[0][0].ch, '\r');
    assert!(back[0][1].fg == RGB::new(9, 9, 9));
    assert_eq!(back[1].len(), 0);
    assert!(back[2][0].bg == RGB::new(7, 7, 7) && back[2][0].fg == RGB::new(255, 255, 255));
}

#[test]
fn buffer_follows_picture() {
    let mut img = ImageView::new("abc\ndef".to_string());
    let mut colours = ColoursView::new();
    let mut chars = CharView::new("*".to_string());
    chars.handle_event(Key::Other);
    for key in [Key::Char('p'), Key::Char('\n'), Key::Right, Key::Down, Key::Char('\n'), Key::Char('o')] {
        img.handle_event(key, &mut colours, &mut chars);
        assert_eq!(img.curr_buffer, construct_buffer(&img.data));
    }
    assert_eq!(img.data[0][0].ch, '*');
    assert_eq!(img.data[1][1].ch, '*');
}

#[test]
fn pen_down_keeps_tool_and_pen() {
    let mut img = ImageView::new("ab".to_string());
    let mut colours = ColoursView::new();
    let mut chars = CharView::new("*".to_string());
    img.handle_event(Key::Char('o'), &mut colours, &mut chars);
    img.handle_event(Key::Char('\n'), &mut colours, &mut chars);
    for key in [Key::Char('t'), Key::Char('p'), Key::Char('g'), Key::Char('h')] {
        img.handle_event(key, &mut colours, &mut chars);
        assert_eq!(img.tool, Tool::Paint);
        assert!(img.tool_down);
        assert!(colours.fg == RGB::new(0, 0, 0) && colours.bg == RGB::new(255, 255, 255));
        assert_eq!(chars.pen_char, ' ');
    }
}

#[test]
fn default_background_keeps_cell_background() {
    let mut img = ImageView::new("\x1b[48;2;1;2;3mab".to_string());
    let mut colours = ColoursView::new();
    let mut chars = CharView::new("*".to_string());
    colours.handle_event(Key::Char('R'));
    img.handle_event(Key::Char('t'), &mut colours, &mut chars);
    img.handle_event(Key::Char('\n'), &mut colours, &mut chars);
    img.handle_event(Key::Char('z'), &mut colours, &mut chars);
    assert_eq!(img.data[0][0].ch, 'z');
    assert!(img.data[0][0].bg == RGB::new(1, 2, 3));
    assert!(img.data[0][0].fg == RGB::new(0, 0, 0));
}

#[test]
fn typed_foreground_over_default() {
    let mut v = ColoursView::new();
    v.handle_event(Key::Char('r'));
    v.handle_event(Key::Char('#'));
    assert_eq!(v.inp_buffer, "default");
    for c in "c0ffee".chars() {
        v.handle_event(Key::Char(c));
    }
    assert_eq!(v.inp_fg, 0);
    assert!(v.fg == RGB::new(0xc0, 0xff, 0xee) && !v.fg.default);
    assert!(v.bg == RGB::new(255, 255, 255));
}

#[test]
fn focus_stays_while_pen_down() {
    let mut e = Editor::new("ab".to_string(), "x".to_string());
    e.handle_key(Key::Char('\n'));
    e.handle_key(Key::Ctrl('e'));
    assert_eq!(e.focus, Focus::Image);
    e.handle_key(Key::Char('\n'));
    e.handle_key(Key::Ctrl('e'));
    assert_eq!(e.focus, Focus::Charsheet);
    e.handle_key(Key::Char('\t'));
    assert_eq!(e.focus, Focus::Charsheet);
    e.handle_key(Key::Ctrl('e'));
    assert_eq!(e.focus, Focus::Image);
    e.handle_key(Key::Char('\t'));
    e.handle_key(Key::Char('\t'));
    assert_eq!(e.focus, Focus::Image);
}

#[test]
fn save_without_carriage_returns_is_unchanged() {
    let s = "\x1b[39mab\ncd\n".to_string();
    assert_eq!(crlf_to_lf_exec(&s), s);
}

#[test]
fn saved_picture_with_default_marks_reads_back_by_component() {
    let mut fg = RGB::new(9, 8, 7);
    fg.default = true;
    let mut bg = RGB::new(1, 2, 3);
    bg.default = true;
    let rows = vec![vec![
        FmtChar { ch: 'a', fg, bg },
        FmtChar { ch: 'b', fg: RGB::new(9, 8, 7), bg },
    ]];
    let text = crlf_to_lf_exec(&construct_buffer(&rows));
    let back = make_data(text.chars().collect());
    assert_eq!(back.len(), 1);
    assert_eq!(back[0].len(), 2);
    for j in 0..2 {
        assert_eq!(back[0][j].ch, rows[0][j].ch);
        assert!(back[0][j].fg == rows[0][j].fg && back[0][j].bg == rows[0][j].bg);
        assert!(!back[0][j].fg.default && !back[0][j].bg.default);
    }
}
