use ansi_paint::char_view::CharView;
use ansi_paint::colours_view::ColoursView;
use ansi_paint::editor::{Action, Editor, Focus};
use ansi_paint::image_view::{is_openable, ImageView, Tool};
use ansi_paint::input::Key;
use ansi_paint::rgb::RGB;

#[test]
fn sheet_moves_and_picks() {
    let mut v = CharView::new("abc\ndef\n".to_string());
    assert_eq!((v.cur_x, v.cur_y, v.pen_char), (1, 1, ' '));
    assert!(v.can_handle_exec(Key::Right));
    v.handle_event(Key::Right);
    assert_eq!((v.cur_x, v.cur_y, v.pen_char), (2, 1, 'b'));
    v.handle_event(Key::Down);
    assert_eq!(v.pen_char, 'e');
    v.handle_event(Key::Down);
    assert_eq!((v.cur_x, v.cur_y), (2, 2));
    v.handle_event(Key::Right);
    v.handle_event(Key::Right);
    assert_eq!((v.cur_x, v.pen_char), (3, 'f'));
    v.handle_event(Key::Other);
    assert_eq!(v.pen_char, 'f');
}

#[test]
fn sheet_ragged_row_is_refused() {
    let v = CharView::new("abc\nd".to_string());
    let mut w = v;
    w.cur_x = 3;
    assert!(!w.can_handle_exec(Key::Down));
}

#[test]
fn sheet_draw() {
    let v = CharView::new("ab".to_string());
    assert!(v.can_draw_exec(10, 3));
    let want = "\x1b[39m\x1b[49m\x1b[3;10Ha\x1b[3;12Hb\x1b[2;9H╭─╮\x1b[3;9H│\x1b[3;11H│\x1b[4;9H╰─╯";
    assert_eq!(v.draw(10, 3), want);
    assert!(!v.can_draw_exec(0, 0));
}

#[test]
fn picture_opens() {
    assert!(!is_openable(&"".to_string()));
    assert!(is_openable(&"a".to_string()));
    assert!(!is_openable(&"\x1b[38;2;1;2".to_string()));
    assert!(!is_openable(&"\x1b[38;2;1;2;x".to_string()));
    let v = ImageView::new("ab\ncd".to_string());
    assert_eq!((v.width, v.height, v.cur_x, v.cur_y), (2, 2, 1, 1));
    assert_eq!(v.tool, Tool::NoTool);
    assert!(!v.tool_down);
    assert_eq!(v.curr_buffer, "\x1b[38;2;255;255;255mab\x1b[39m\x1b[49m\r\ncd\x1b[39m\x1b[49m\r\n");
}

#[test]
fn pen_tool_draws() {
    let mut img = ImageView::new("ab\ncd".to_string());
    let mut colours = ColoursView::new();
    let mut chars = CharView::new("#".to_string());
    chars.handle_event(Key::Other);
    img.handle_event(Key::Char('p'), &mut colours, &mut chars);
    assert_eq!(img.tool, Tool::Pen);
    img.handle_event(Key::Char('\n'), &mut colours, &mut chars);
    assert!(img.tool_down);
    assert_eq!(img.data[0][0].ch, '#');
    assert!(img.data[0][0].fg == RGB::new(0, 0, 0) && img.data[0][0].bg == RGB::new(255, 255, 255));
    img.handle_event(Key::Right, &mut colours, &mut chars);
    assert_eq!(img.data[0][1].ch, '#');
    img.handle_event(Key::Right, &mut colours, &mut chars);
    assert_eq!(img.cur_x, 2);
    assert_eq!(img.data[1][0].ch, 'c');
}

#[test]
fn paint_keeps_default_colour() {
    let mut img = ImageView::new("ab".to_string());
    let mut colours = ColoursView::new();
    let mut chars = CharView::new("#".to_string());
    colours.handle_event(Key::Char('r'));
    img.handle_event(Key::Char('o'), &mut colours, &mut chars);
    img.handle_event(Key::Char('\n'), &mut colours, &mut chars);
    assert_eq!(img.data[0][0].ch, 'a');
    assert!(img.data[0][0].fg == RGB::new(255, 255, 255));
    assert!(img.data[0][0].bg == RGB::new(255, 255, 255));
}

#[test]
fn text_tool_types_and_moves() {
    let mut img = ImageView::new("abc".to_string());
    let mut colours = ColoursView::new();
    let mut chars = CharView::new("#".to_string());
    img.handle_event(Key::Char('t'), &mut colours, &mut chars);
    img.handle_event(Key::Char('\n'), &mut colours, &mut chars);
    img.handle_event(Key::Char('x'), &mut colours, &mut chars);
    img.handle_event(Key::Char('t'), &mut colours, &mut chars);
    assert_eq!(img.data[0][0].ch, 'x');
    assert_eq!(img.data[0][1].ch, 't');
    assert_eq!(img.cur_x, 3);
    img.handle_event(Key::Char('z'), &mut colours, &mut chars);
    assert_eq!(img.cur_x, 4);
    assert!(img.can_handle_exec(Key::Char('q')));
    img.handle_event(Key::Char('q'), &mut colours, &mut chars);
    assert_eq!(img.data[0][2].ch, 'q');
    assert_eq!(img.cur_x, 4);
}

#[test]
fn grab_colours_and_character() {
    let mut img = ImageView::new("\x1b[38;2;1;2;3m\x1b[48;2;4;5;6mQ".to_string());
    let mut colours = ColoursView::new();
    let mut chars = CharView::new("#".to_string());
    img.handle_event(Key::Char('g'), &mut colours, &mut chars);
    assert!(colours.fg == RGB::new(1, 2, 3) && colours.bg == RGB::new(4, 5, 6));
    assert_eq!(chars.pen_char, ' ');
    img.handle_event(Key::Char('h'), &mut colours, &mut chars);
    assert_eq!(chars.pen_char, 'Q');
}

#[test]
fn editor_keys() {
    let mut e = Editor::new("ab\r\ncd".to_string(), "xy".to_string());
    assert!(matches!(e.handle_key(Key::Ctrl('c')), Action::Quit));
    assert!(matches!(e.handle_key(Key::Ctrl('q')), Action::Quit));
    match e.handle_key(Key::Ctrl('s')) {
        Action::Save(t) => assert_eq!(
            t,
            "\x1b[38;2;255;255;255mab\r\x1b[39m\x1b[49m\ncd\x1b[39m\x1b[49m\n"
        ),
        _ => panic!("not saved"),
    }
    assert!(e.accepts(Key::Char('\t')));
    assert!(matches!(e.handle_key(Key::Char('\t')), Action::Continue));
    assert_eq!(e.focus, Focus::Colours);
    e.handle_key(Key::Right);
    assert_eq!(e.colours.cur_x, 2);
    e.handle_key(Key::Ctrl('e'));
    assert_eq!(e.focus, Focus::Charsheet);
    e.handle_key(Key::Right);
    assert_eq!(e.chars.pen_char, 'y');
    e.handle_key(Key::Ctrl('e'));
    assert_eq!(e.focus, Focus::Image);
    e.handle_key(Key::Char('\n'));
    assert!(e.image.tool_down);
    e.handle_key(Key::Char('\t'));
    assert_eq!(e.focus, Focus::Image);
}

#[test]
fn editor_screen_refused_past_last_column() {
    let mut e = Editor::new("ab".to_string(), "x".to_string());
    e.handle_key(Key::Char('t'));
    e.handle_key(Key::Char('\n'));
    e.handle_key(Key::Char('u'));
    assert!(e.can_render_exec());
    e.handle_key(Key::Char('v'));
    assert_eq!(e.image.cur_x, 3);
    assert!(!e.can_render_exec());
}

#[test]
fn editor_screen() {
    let e = Editor::new("a".to_string(), "x".to_string());
    assert!(e.can_render_exec());
    let s = e.render();
    let want = format!(
        "\x1b[49m\x1b[2J{}\x1b[1;1H{}\x1b[1;1H\x1b[38;2;255;255;255m\x1b[48;2;0;0;0ma\x1b[1;1H\x1b[49m\x1b[1;2HNone\x1b[2;2Hfalse{}",
        e.colours.draw(2, 3),
        e.image.curr_buffer,
        e.chars.draw(10, 3)
    );
    assert_eq!(s, want);
}
