//! The editor as a whole: which view has the focus, what a key does, and the screen.
use vstd::prelude::*;
use crate::char_view::{CharView, sheet_text};
use crate::colours_view::{ColoursView, bg_of, fg_of, palette_text};
use crate::image_view::{ImageView, Tool, cell_at, has_cell, image_can_handle};
use crate::input::Key;
use crate::parser::{buffer_text, is_picture_text, picture_rows};
use crate::terminal::{
    bg_reset_code, bg_reset_seq, bg_rgb_code, bg_rgb_seq, clear_all_code, clear_all_seq,
    fg_rgb_code, fg_rgb_seq, goto_code, goto_seq,
};
use crate::text::{chars_of, contains_text, lemma_contains_end, lemma_contains_left, push_char};

verus! {

/// The view that keys go to.
#[derive(Copy, Clone, Debug, PartialEq, Eq, Structural)]
pub enum Focus {
    Image,
    Colours,
    Charsheet,
}

/// What the caller does after a key.
pub enum Action {
    /// Stop; the picture is not saved.
    Quit,
    /// Write this text to the picture file, then draw the screen.
    Save(String),
    /// Draw the screen.
    Continue,
}

/// The picture, the palette, the character sheet, and the focus.
pub struct Editor {
    pub focus: Focus,
    pub image: ImageView,
    pub colours: ColoursView,
    pub chars: CharView,
}

/// `s` with every carriage return that precedes a line feed removed, as
/// `str::replace("\r\n", "\n")` does, matching from the left.
pub open spec fn crlf_to_lf(s: Seq<char>) -> Seq<char>
    decreases s.len(),
{
    if s.len() == 0 {
        seq![]
    } else if s.len() >= 2 && s[0] == '\r' && s[1] == '\n' {
        seq!['\n'] + crlf_to_lf(s.skip(2))
    } else {
        seq![s[0]] + crlf_to_lf(s.drop_first())
    }
}

/// Replaces every `\r\n` in `s` by `\n`.
pub fn crlf_to_lf_exec(s: &String) -> (res: String)
    ensures
        res@ == crlf_to_lf(s@),
{
    let chars = chars_of(s);
    let mut res = String::new();
    let mut i: usize = 0;
    assert(chars@.skip(0) =~= chars@);
    while i < chars.len()
        invariant
            chars@ == s@,
            i <= chars.len(),
            res@ + crlf_to_lf(chars@.skip(i as int)) == crlf_to_lf(s@),
        decreases chars.len() - i,
    {
        let ghost before = res@;
        let ghost rest = chars@.skip(i as int);
        if i + 1 < chars.len() && chars[i] == '\r' && chars[i + 1] == '\n' {
            push_char(&mut res, '\n');
            assert(rest.skip(2) =~= chars@.skip(i + 2));
            assert(res@ + crlf_to_lf(chars@.skip(i + 2)) =~= before + crlf_to_lf(rest));
            i = i + 2;
        } else {
            push_char(&mut res, chars[i]);
            assert(rest.drop_first() =~= chars@.skip(i + 1));
            assert(res@ + crlf_to_lf(chars@.skip(i + 1)) =~= before + crlf_to_lf(rest));
            i = i + 1;
        }
    }
    assert(chars@.skip(i as int) =~= Seq::<char>::empty());
    assert(res@ =~= crlf_to_lf(s@));
    res
}

/// The focus after `key` when the pen is `down`: Ctrl-e goes to the character sheet and
/// back to the picture, tab between the picture and the palette; neither while the pen is
/// down.
pub open spec fn next_focus(focus: Focus, key: Key, down: bool) -> Focus {
    if down {
        focus
    } else if key == Key::Ctrl('e') {
        if focus != Focus::Charsheet {
            Focus::Charsheet
        } else {
            Focus::Image
        }
    } else if key == Key::Char('\t') {
        if focus == Focus::Image {
            Focus::Colours
        } else if focus == Focus::Colours {
            Focus::Image
        } else {
            focus
        }
    } else {
        focus
    }
}

/// Ctrl-c and Ctrl-q end the editor.
pub open spec fn is_quit(key: Key) -> bool {
    key == Key::Ctrl('c') || key == Key::Ctrl('q')
}

/// The name of a tool as the status line shows it.
pub open spec fn tool_name(tool: Tool) -> Seq<char> {
    match tool {
        Tool::NoTool => seq!['N', 'o', 'n', 'e'],
        Tool::Pen => seq!['P', 'e', 'n'],
        Tool::Paint => seq!['P', 'a', 'i', 'n', 't'],
        Tool::Text => seq!['T', 'e', 'x', 't'],
    }
}

/// `true` or `false`.
pub open spec fn bool_text(b: bool) -> Seq<char> {
    if b {
        seq!['t', 'r', 'u', 'e']
    } else {
        seq!['f', 'a', 'l', 's', 'e']
    }
}

/// The screen after each key: the palette right of the picture, the picture, the cell
/// under the cursor drawn again in the pen colours while painting (white on black
/// otherwise), the tool and whether the pen is down at the right of the first two rows, and
/// the character sheet further right.
pub open spec fn screen_text(e: Editor) -> Seq<char> {
    let im = e.image;
    let painting = (im.tool == Tool::Paint || im.tool == Tool::Pen) && im.tool_down;
    let cur_fg = if painting { fg_of(e.colours.fg) } else { fg_rgb_seq(255, 255, 255) };
    let cur_bg = if painting { bg_of(e.colours.bg) } else { bg_rgb_seq(0, 0, 0) };
    let w = im.width as int;
    bg_reset_seq() + clear_all_seq() + palette_text(e.colours@, (w + 1) as u16, 3) + goto_seq(1, 1)
        + im@.curr_buffer + goto_seq(im.cur_x, im.cur_y) + cur_fg + cur_bg + seq![
        cell_at(im@.data, im.cur_x as int, im.cur_y as int).ch,
    ] + goto_seq(im.cur_x, im.cur_y) + bg_reset_seq() + goto_seq((w + 1) as u16, 1) + tool_name(
        im.tool,
    ) + goto_seq((w + 1) as u16, 2) + bool_text(im.tool_down) + sheet_text(
        e.chars.sheet(),
        (w + 9) as u16,
        3,
        e.chars.cur_x,
        e.chars.cur_y,
    )
}

/// Appends `chars` one by one.
fn push_chars(s: &mut String, chars: &Vec<char>)
    ensures
        final(s)@ == old(s)@ + chars@,
{
    let mut i: usize = 0;
    while i < chars.len()
        invariant
            i <= chars.len(),
            s@ == old(s)@ + chars@.take(i as int),
        decreases chars.len() - i,
    {
        push_char(s, chars[i]);
        assert(s@ =~= old(s)@ + chars@.take(i + 1));
        i = i + 1;
    }
    assert(chars@.take(i as int) =~= chars@);
}

/// The status-line name of a tool.
fn tool_name_exec(tool: Tool) -> (v: Vec<char>)
    ensures
        v@ == tool_name(tool),
{
    let v = match tool {
        Tool::NoTool => vec!['N', 'o', 'n', 'e'],
        Tool::Pen => vec!['P', 'e', 'n'],
        Tool::Paint => vec!['P', 'a', 'i', 'n', 't'],
        Tool::Text => vec!['T', 'e', 'x', 't'],
    };
    assert(v@ =~= tool_name(tool));
    v
}

/// `true` or `false`.
fn bool_text_exec(b: bool) -> (v: Vec<char>)
    ensures
        v@ == bool_text(b),
{
    let v = if b {
        vec!['t', 'r', 'u', 'e']
    } else {
        vec!['f', 'a', 'l', 's', 'e']
    };
    assert(v@ =~= bool_text(b));
    v
}

impl Editor {
    /// The picture from `image_text`, the palette, the sheet from `char_sheet_text`, with
    /// the focus on the picture.
    pub fn new(image_text: String, char_sheet_text: String) -> (e: Editor)
        requires
            image_text@.len() + 8 <= usize::MAX,
            is_picture_text(image_text@),
            picture_rows(image_text@).len() > 0,
        ensures
            e.focus == Focus::Image,
            e.image@.data == picture_rows(image_text@),
            e.image@.curr_buffer == buffer_text(picture_rows(image_text@)),
            e.image.width == (picture_rows(image_text@)[0].len() as u16),
            e.image.height == (picture_rows(image_text@).len() as u16),
            e.image.cur_x == 1 && e.image.cur_y == 1,
            e.image.tool == Tool::NoTool && !e.image.tool_down,
            e.chars.sheet() == crate::parser::char_sheet_rows(char_sheet_text@),
            e.chars.cur_x == 1 && e.chars.cur_y == 1 && e.chars.pen_char == ' ',
            e.colours.wf(),
            e.colours@.colours == crate::colours_view::palette(),
            e.colours.fg == crate::rgb::rgb(0, 0, 0),
            e.colours.bg == crate::rgb::rgb(255, 255, 255),
            e.colours.cur_x == 1 && e.colours.cur_y == 1,
            e.colours.inp_fg == 0 && e.colours.inp_bg == 0,
            e.colours@.inp_buffer == Seq::<char>::empty(),
    {
        Editor {
            focus: Focus::Image,
            image: ImageView::new(image_text),
            colours: ColoursView::new(),
            chars: CharView::new(char_sheet_text),
        }
    }

    /// The view that gets `key` can take it.
    pub open spec fn can_handle(&self, key: Key) -> bool {
        let f = next_focus(self.focus, key, self.image.tool_down);
        &&& self.colours.wf()
        &&& !is_quit(key) ==> {
            &&& f == Focus::Charsheet ==> self.chars.can_handle(key)
            &&& f == Focus::Image ==> image_can_handle(self.image@, key)
        }
    }

    /// Tests `can_handle`.
    pub fn accepts(&self, key: Key) -> (res: bool)
        ensures
            res == self.can_handle(key),
    {
        if !self.colours.is_wf() {
            return false;
        }
        if key == Key::Ctrl('c') || key == Key::Ctrl('q') {
            return true;
        }
        let down = self.image.tool_down;
        let f = if down {
            self.focus
        } else if key == Key::Ctrl('e') {
            if self.focus != Focus::Charsheet {
                Focus::Charsheet
            } else {
                Focus::Image
            }
        } else if key == Key::Char('\t') {
            if self.focus == Focus::Image {
                Focus::Colours
            } else if self.focus == Focus::Colours {
                Focus::Image
            } else {
                self.focus
            }
        } else {
            self.focus
        };
        match f {
            Focus::Colours => true,
            Focus::Charsheet => self.chars.can_handle_exec(key),
            Focus::Image => self.image.can_handle_exec(key),
        }
    }

    /// Tests `can_render`.
    pub fn can_render_exec(&self) -> (res: bool)
        ensures
            res == self.can_render(),
    {
        let im = &self.image;
        if im.cur_y < 1 || im.cur_y as usize > im.data.len() {
            return false;
        }
        assert(im.data@[im.cur_y - 1]@ == im@.data[im.cur_y - 1]);
        if im.cur_x < 1 || im.cur_x as usize > im.data[im.cur_y as usize - 1].len() {
            return false;
        }
        if im.width > 65526 {
            return false;
        }
        self.colours.can_draw_exec(im.width + 1, 3) && self.chars.can_draw_exec(im.width + 9, 3)
    }

    /// Handles one key: Ctrl-c and Ctrl-q quit, Ctrl-s saves the picture's text with bare
    /// line feeds, Ctrl-e and tab move the focus; then the key goes to the view in focus.
    pub fn handle_key(&mut self, key: Key) -> (action: Action)
        requires
            old(self).can_handle(key),
        ensures
            final(self).colours.wf(),
            is_quit(key) ==> action is Quit && *final(self) == *old(self),
            !is_quit(key) ==> {
                &&& final(self).focus == next_focus(old(self).focus, key, old(self).image.tool_down)
                &&& match action {
                    Action::Save(text) => key == Key::Ctrl('s') && text@ == crlf_to_lf(
                        old(self).image@.curr_buffer,
                    ),
                    Action::Continue => key != Key::Ctrl('s'),
                    Action::Quit => false,
                }
                &&& final(self).focus == Focus::Colours ==> {
                    &&& final(self).colours@ == crate::colours_view::colours_step(old(self).colours@, key)
                    &&& final(self).image == old(self).image
                    &&& final(self).chars == old(self).chars
                }
                &&& final(self).focus == Focus::Charsheet ==> {
                    &&& final(self).chars.char_sheet@ == old(self).chars.char_sheet@
                    &&& final(self).chars.cur_x as int == crate::char_view::sheet_target(
                        old(self).chars.sheet(),
                        old(self).chars.cur_x,
                        old(self).chars.cur_y,
                        key,
                    ).0
                    &&& final(self).chars.cur_y as int == crate::char_view::sheet_target(
                        old(self).chars.sheet(),
                        old(self).chars.cur_x,
                        old(self).chars.cur_y,
                        key,
                    ).1
                    &&& final(self).chars.pen_char == old(self).chars.sheet()[final(self).chars.cur_y
                        - 1][final(self).chars.cur_x - 1]
                    &&& final(self).image == old(self).image
                    &&& final(self).colours == old(self).colours
                }
                &&& final(self).focus == Focus::Image ==> {
                    let (m, fg, bg, pen) = crate::image_view::image_step(
                        old(self).image@,
                        key,
                        old(self).colours.fg,
                        old(self).colours.bg,
                        old(self).chars.pen_char,
                    );
                    &&& final(self).image@ == m
                    &&& final(self).colours@ == (crate::colours_view::ColoursModel {
                        fg,
                        bg,
                        ..old(self).colours@
                    })
                    &&& final(self).chars.pen_char == pen
                    &&& final(self).chars.char_sheet@ == old(self).chars.char_sheet@
                    &&& final(self).chars.cur_x == old(self).chars.cur_x
                    &&& final(self).chars.cur_y == old(self).chars.cur_y
                }
            },
    {
        let mut saved: Option<String> = None;
        match key {
            Key::Ctrl('c') => {
                return Action::Quit;
            },
            Key::Ctrl('q') => {
                return Action::Quit;
            },
            Key::Ctrl('s') => {
                saved = Some(crlf_to_lf_exec(&self.image.curr_buffer));
            },
            Key::Ctrl('e') => {
                if !self.image.tool_down {
                    if self.focus != Focus::Charsheet {
                        self.focus = Focus::Charsheet;
                    } else {
                        self.focus = Focus::Image;
                    }
                }
            },
            Key::Char('\t') => {
                if !self.image.tool_down {
                    if self.focus == Focus::Image {
                        self.focus = Focus::Colours;
                    } else if self.focus == Focus::Colours {
                        self.focus = Focus::Image;
                    }
                }
            },
            _ => (),
        }
        if self.focus == Focus::Colours {
            self.colours.handle_event(key);
        }
        if self.focus == Focus::Charsheet {
            self.chars.handle_event(key);
        }
        if self.focus == Focus::Image {
            self.image.handle_event(key, &mut self.colours, &mut self.chars);
        }
        match saved {
            Some(text) => Action::Save(text),
            None => Action::Continue,
        }
    }

    /// The screen can be drawn: the cursor is on a cell of the picture, and the palette and
    /// the sheet fit right of it.
    pub open spec fn can_render(&self) -> bool {
        let w = self.image.width as int;
        &&& has_cell(self.image@.data, self.image.cur_x as int, self.image.cur_y as int)
        &&& w + 9 <= u16::MAX
        &&& self.colours.can_draw((w + 1) as u16, 3)
        &&& self.chars.can_draw((w + 9) as u16, 3)
    }

    /// The text that draws the whole screen.
    pub fn render(&self) -> (screen: String)
        requires
            self.can_render(),
        ensures
            screen@ == screen_text(*self),
    {
        let colour_select = self.colours.draw(self.image.width + 1, 3);
        let chsheet_render = self.chars.draw(self.image.width + 9, 3);
        let im = &self.image;
        let painting = (im.tool == Tool::Paint || im.tool == Tool::Pen) && im.tool_down;
        let cur_fg: String;
        let cur_bg: String;
        if painting {
            cur_bg = self.colours.bg.to_bg();
            cur_fg = self.colours.fg.to_fg();
        } else {
            cur_bg = bg_rgb_code(0, 0, 0);
            cur_fg = fg_rgb_code(255, 255, 255);
        }
        assert(im.data@[im.cur_y - 1]@ == im@.data[im.cur_y - 1]);
        let ch = im.data[im.cur_y as usize - 1][im.cur_x as usize - 1].ch;
        let mut screen = bg_reset_code();
        let c = clear_all_code();
        screen.append(c.as_str());
        screen.append(colour_select.as_str());
        let g = goto_code(1, 1);
        screen.append(g.as_str());
        screen.append(im.curr_buffer.as_str());
        let g = goto_code(im.cur_x, im.cur_y);
        screen.append(g.as_str());
        screen.append(cur_fg.as_str());
        screen.append(cur_bg.as_str());
        push_char(&mut screen, ch);
        screen.append(g.as_str());
        let r = bg_reset_code();
        screen.append(r.as_str());
        let g = goto_code(im.width + 1, 1);
        screen.append(g.as_str());
        push_chars(&mut screen, &tool_name_exec(im.tool));
        let g = goto_code(im.width + 1, 2);
        screen.append(g.as_str());
        push_chars(&mut screen, &bool_text_exec(im.tool_down));
        screen.append(chsheet_render.as_str());
        assert(screen@ =~= screen_text(*self));
        screen
    }
}


/// While the pen is down no key moves the focus. With the pen up, tab goes from the
/// picture to the palette and back and does nothing on the character sheet; Ctrl-e goes
/// from the picture or the palette to the character sheet and from the sheet back to the
/// picture; no other key moves the focus. So tab and Ctrl-e each undo themselves: pressing
/// one twice from the picture comes back to the picture.
pub proof fn law_focus_keys(focus: Focus, key: Key)
    ensures
        next_focus(focus, key, true) == focus,
        next_focus(Focus::Image, Key::Char('\t'), false) == Focus::Colours,
        next_focus(Focus::Colours, Key::Char('\t'), false) == Focus::Image,
        next_focus(Focus::Charsheet, Key::Char('\t'), false) == Focus::Charsheet,
        next_focus(Focus::Image, Key::Ctrl('e'), false) == Focus::Charsheet,
        next_focus(Focus::Colours, Key::Ctrl('e'), false) == Focus::Charsheet,
        next_focus(Focus::Charsheet, Key::Ctrl('e'), false) == Focus::Image,
        key != Key::Char('\t') && key != Key::Ctrl('e') ==> next_focus(focus, key, false) == focus,
        next_focus(next_focus(Focus::Image, Key::Char('\t'), false), Key::Char('\t'), false)
            == Focus::Image,
        next_focus(next_focus(Focus::Image, Key::Ctrl('e'), false), Key::Ctrl('e'), false)
            == Focus::Image,
        next_focus(next_focus(Focus::Colours, Key::Ctrl('e'), false), Key::Ctrl('e'), false)
            == Focus::Image,
{
}

/// Saving turns the picture's row ends into bare line feeds and changes nothing else: a
/// text without carriage returns is saved as it is.
pub proof fn law_save_without_cr(s: Seq<char>)
    requires
        forall|k: int| 0 <= k < s.len() ==> #[trigger] s[k] != '\r',
    ensures
        crlf_to_lf(s) == s,
    decreases s.len(),
{
    if s.len() > 0 {
        assert forall|k: int| 0 <= k < s.drop_first().len() implies #[trigger] s.drop_first()[k]
            != '\r' by {
            assert(s.drop_first()[k] == s[k + 1]);
        }
        law_save_without_cr(s.drop_first());
        assert(seq![s[0]] + s.drop_first() =~= s);
    }
}


/// Turning `\r\n` into `\n` works piece by piece: on `a + b` it gives the result on `a`
/// followed by the result on `b`, unless `a` ends with a carriage return and `b` starts with
/// a line feed (where the pair that they make is turned too).
proof fn lemma_crlf_concat(a: Seq<char>, b: Seq<char>)
    requires
        a.len() == 0 || b.len() == 0 || a.last() != '\r' || b[0] != '\n',
    ensures
        crlf_to_lf(a + b) == crlf_to_lf(a) + crlf_to_lf(b),
    decreases a.len(),
{
    if a.len() == 0 {
        assert(a + b =~= b);
        assert(crlf_to_lf(a) + crlf_to_lf(b) =~= crlf_to_lf(b));
    } else if a.len() >= 2 && a[0] == '\r' && a[1] == '\n' {
        let a2 = a.skip(2);
        assert((a + b).skip(2) =~= a2 + b);
        assert(a2.len() == 0 || a2.last() == a.last());
        lemma_crlf_concat(a2, b);
        assert(crlf_to_lf(a + b) == seq!['\n'] + crlf_to_lf(a2 + b));
        assert(crlf_to_lf(a) == seq!['\n'] + crlf_to_lf(a2));
        assert(seq!['\n'] + (crlf_to_lf(a2) + crlf_to_lf(b)) =~= seq!['\n'] + crlf_to_lf(a2)
            + crlf_to_lf(b));
    } else {
        let a1 = a.drop_first();
        assert((a + b).drop_first() =~= a1 + b);
        assert(a1.len() == 0 || a1.last() == a.last());
        assert((a + b)[0] == a[0]);
        if a.len() == 1 {
            assert(!(b.len() > 0 && a[0] == '\r' && b[0] == '\n'));
            assert(b.len() > 0 ==> (a + b)[1] == b[0]);
        } else {
            assert((a + b)[1] == a[1]);
        }
        lemma_crlf_concat(a1, b);
        assert(crlf_to_lf(a + b) == seq![a[0]] + crlf_to_lf(a1 + b));
        assert(crlf_to_lf(a) == seq![a[0]] + crlf_to_lf(a1));
        assert(seq![a[0]] + (crlf_to_lf(a1) + crlf_to_lf(b)) =~= seq![a[0]] + crlf_to_lf(a1)
            + crlf_to_lf(b));
    }
}

/// Saving turns each carriage return that precedes a line feed into nothing and keeps
/// every other character: the text saved for `a`, a carriage return and a line feed, then
/// `b` is the text saved for `a`, a line feed, then the text saved for `b`; a carriage
/// return at the end stays; and two pieces that do not make a `\r\n` where they meet are
/// saved each as it would be alone.
pub proof fn law_save_line_ends(a: Seq<char>, b: Seq<char>)
    ensures
        crlf_to_lf(a + seq!['\r', '\n'] + b) == crlf_to_lf(a) + seq!['\n'] + crlf_to_lf(b),
        crlf_to_lf(a + seq!['\r']) == crlf_to_lf(a) + seq!['\r'],
        (a.len() == 0 || b.len() == 0 || a.last() != '\r' || b[0] != '\n') ==> crlf_to_lf(a + b)
            == crlf_to_lf(a) + crlf_to_lf(b),
{
    let pair = seq!['\r', '\n'];
    assert(crlf_to_lf(pair) == seq!['\n'] + crlf_to_lf(pair.skip(2)));
    assert(pair.skip(2) =~= Seq::<char>::empty());
    assert(seq!['\n'] + crlf_to_lf(Seq::<char>::empty()) =~= seq!['\n']);
    lemma_crlf_concat(pair, b);
    assert((pair + b)[0] == '\r');
    lemma_crlf_concat(a, pair + b);
    assert(a + pair + b =~= a + (pair + b));
    assert(crlf_to_lf(a) + (seq!['\n'] + crlf_to_lf(b)) =~= crlf_to_lf(a) + seq!['\n'] + crlf_to_lf(b));
    let cr = seq!['\r'];
    assert(crlf_to_lf(cr) == seq!['\r'] + crlf_to_lf(cr.drop_first()));
    assert(cr.drop_first() =~= Seq::<char>::empty());
    assert(seq!['\r'] + crlf_to_lf(Seq::<char>::empty()) =~= seq!['\r']);
    lemma_crlf_concat(a, cr);
    if a.len() == 0 || b.len() == 0 || a.last() != '\r' || b[0] != '\n' {
        lemma_crlf_concat(a, b);
    }
}

/// The screen shows the cell under the picture cursor again, right after moving there: in
/// the pen colours (foreground, then background) while the pen or the paint tool is down,
/// white on black otherwise.
#[verifier::rlimit(40)]
pub proof fn law_cursor_cell_preview(e: Editor)
    ensures
        ({
            let im = e.image;
            let painting = (im.tool == Tool::Paint || im.tool == Tool::Pen) && im.tool_down;
            let preview = goto_seq(im.cur_x, im.cur_y) + (if painting {
                fg_rgb_seq(e.colours.fg.r, e.colours.fg.g, e.colours.fg.b) + bg_rgb_seq(
                    e.colours.bg.r,
                    e.colours.bg.g,
                    e.colours.bg.b,
                )
            } else {
                fg_rgb_seq(255, 255, 255) + bg_rgb_seq(0, 0, 0)
            }) + seq![im@.data[im.cur_y - 1][im.cur_x - 1].ch];
            contains_text(screen_text(e), preview)
        }),
{
    let im = e.image;
    let painting = (im.tool == Tool::Paint || im.tool == Tool::Pen) && im.tool_down;
    let w = im.width as int;
    let head = bg_reset_seq() + clear_all_seq() + palette_text(e.colours@, (w + 1) as u16, 3)
        + goto_seq(1, 1) + im@.curr_buffer;
    let cur_fg = if painting { fg_of(e.colours.fg) } else { fg_rgb_seq(255, 255, 255) };
    let cur_bg = if painting { bg_of(e.colours.bg) } else { bg_rgb_seq(0, 0, 0) };
    let preview = goto_seq(im.cur_x, im.cur_y) + (if painting {
        fg_rgb_seq(e.colours.fg.r, e.colours.fg.g, e.colours.fg.b) + bg_rgb_seq(
            e.colours.bg.r,
            e.colours.bg.g,
            e.colours.bg.b,
        )
    } else {
        fg_rgb_seq(255, 255, 255) + bg_rgb_seq(0, 0, 0)
    }) + seq![im@.data[im.cur_y - 1][im.cur_x - 1].ch];
    assert(preview == goto_seq(im.cur_x, im.cur_y) + (cur_fg + cur_bg) + seq![
        cell_at(im@.data, im.cur_x as int, im.cur_y as int).ch,
    ]) by {
        if painting {
            assert(cur_fg == fg_rgb_seq(e.colours.fg.r, e.colours.fg.g, e.colours.fg.b));
            assert(cur_bg == bg_rgb_seq(e.colours.bg.r, e.colours.bg.g, e.colours.bg.b));
        }
    }
    let g = goto_seq(im.cur_x, im.cur_y);
    let ch = seq![cell_at(im@.data, im.cur_x as int, im.cur_y as int).ch];
    let r1 = goto_seq((w + 1) as u16, 1);
    let r2 = tool_name(im.tool);
    let r3 = goto_seq((w + 1) as u16, 2);
    let r4 = bool_text(im.tool_down);
    let r5 = sheet_text(e.chars.sheet(), (w + 9) as u16, 3, e.chars.cur_x, e.chars.cur_y);
    let rest = g + bg_reset_seq() + r1 + r2 + r3 + r4 + r5;
    let s = screen_text(e);
    assert(s == head + g + cur_fg + cur_bg + ch + g + bg_reset_seq() + r1 + r2 + r3 + r4 + r5);
    let front = head + preview;
    lemma_regroup_front(head, g, cur_fg, cur_bg, ch);
    lemma_regroup_rest(front, g, bg_reset_seq(), r1, r2, r3, r4, r5);
    lemma_infix(head, preview, rest);
    let k = head.len() as int;
    assert(0 <= k && k + preview.len() <= s.len() && s.subrange(k, k + preview.len()) == preview);
    assert(contains_text(s, preview));
}

/// The screen starts by resetting the background and clearing everything; it shows the
/// picture's text from the top left corner and the palette one column right of the picture
/// from row 3, and it ends with the character sheet nine columns right of the picture from
/// row 3.
#[verifier::rlimit(30)]
pub proof fn law_screen_layout(e: Editor)
    ensures
        ({
            let im = e.image;
            let w = im.width as int;
            let s = screen_text(e);
            let start = bg_reset_seq() + clear_all_seq();
            let sheet = sheet_text(e.chars.sheet(), (w + 9) as u16, 3, e.chars.cur_x, e.chars.cur_y);
            &&& start.len() <= s.len() && s.subrange(0, start.len() as int) == start
            &&& contains_text(s, goto_seq(1, 1) + im@.curr_buffer)
            &&& contains_text(s, palette_text(e.colours@, (w + 1) as u16, 3))
            &&& sheet.len() <= s.len() && s.subrange(s.len() - sheet.len(), s.len() as int) == sheet
        }),
{
    let im = e.image;
    let painting = (im.tool == Tool::Paint || im.tool == Tool::Pen) && im.tool_down;
    let w = im.width as int;
    let cur_fg = if painting { fg_of(e.colours.fg) } else { fg_rgb_seq(255, 255, 255) };
    let cur_bg = if painting { bg_of(e.colours.bg) } else { bg_rgb_seq(0, 0, 0) };
    let p0 = bg_reset_seq();
    let p1 = clear_all_seq();
    let p2 = palette_text(e.colours@, (w + 1) as u16, 3);
    let p3 = goto_seq(1, 1);
    let p4 = im@.curr_buffer;
    let p5 = goto_seq(im.cur_x, im.cur_y);
    let p6 = cur_fg;
    let p7 = cur_bg;
    let p8 = seq![cell_at(im@.data, im.cur_x as int, im.cur_y as int).ch];
    let p9 = goto_seq(im.cur_x, im.cur_y);
    let p10 = bg_reset_seq();
    let p11 = goto_seq((w + 1) as u16, 1);
    let p12 = tool_name(im.tool);
    let p13 = goto_seq((w + 1) as u16, 2);
    let p14 = bool_text(im.tool_down);
    let p15 = sheet_text(e.chars.sheet(), (w + 9) as u16, 3, e.chars.cur_x, e.chars.cur_y);
    let q0 = p0;
    let q1 = q0 + p1;
    let q2 = q1 + p2;
    let q3 = q2 + p3;
    let q4 = q3 + p4;
    let q5 = q4 + p5;
    let q6 = q5 + p6;
    let q7 = q6 + p7;
    let q8 = q7 + p8;
    let q9 = q8 + p9;
    let q10 = q9 + p10;
    let q11 = q10 + p11;
    let q12 = q11 + p12;
    let q13 = q12 + p13;
    let q14 = q13 + p14;
    let q15 = q14 + p15;
    let s = screen_text(e);
    assert(s == q15);
    let palette = p2;
    assert(contains_text(s, palette)) by {
        lemma_contains_end(q1, p2);
        lemma_contains_left(q2, p3, palette);
        lemma_contains_left(q3, p4, palette);
        lemma_contains_left(q4, p5, palette);
        lemma_contains_left(q5, p6, palette);
        lemma_contains_left(q6, p7, palette);
        lemma_contains_left(q7, p8, palette);
        lemma_contains_left(q8, p9, palette);
        lemma_contains_left(q9, p10, palette);
        lemma_contains_left(q10, p11, palette);
        lemma_contains_left(q11, p12, palette);
        lemma_contains_left(q12, p13, palette);
        lemma_contains_left(q13, p14, palette);
        lemma_contains_left(q14, p15, palette);
    };
    let picture = p3 + p4;
    assert(contains_text(s, picture)) by {
        lemma_assoc(q2, p3, p4);
        lemma_contains_end(q2, picture);
        lemma_contains_left(q4, p5, picture);
        lemma_contains_left(q5, p6, picture);
        lemma_contains_left(q6, p7, picture);
        lemma_contains_left(q7, p8, picture);
        lemma_contains_left(q8, p9, picture);
        lemma_contains_left(q9, p10, picture);
        lemma_contains_left(q10, p11, picture);
        lemma_contains_left(q11, p12, picture);
        lemma_contains_left(q12, p13, picture);
        lemma_contains_left(q13, p14, picture);
        lemma_contains_left(q14, p15, picture);
    };
    assert(s.subrange(0, (p0.len() + p1.len()) as int) == p0 + p1) by {
        lemma_prefix(p0, p1);
        lemma_prefix_left(q1, p2, (p0.len() + p1.len()) as int);
        lemma_prefix_left(q2, p3, (p0.len() + p1.len()) as int);
        lemma_prefix_left(q3, p4, (p0.len() + p1.len()) as int);
        lemma_prefix_left(q4, p5, (p0.len() + p1.len()) as int);
        lemma_prefix_left(q5, p6, (p0.len() + p1.len()) as int);
        lemma_prefix_left(q6, p7, (p0.len() + p1.len()) as int);
        lemma_prefix_left(q7, p8, (p0.len() + p1.len()) as int);
        lemma_prefix_left(q8, p9, (p0.len() + p1.len()) as int);
        lemma_prefix_left(q9, p10, (p0.len() + p1.len()) as int);
        lemma_prefix_left(q10, p11, (p0.len() + p1.len()) as int);
        lemma_prefix_left(q11, p12, (p0.len() + p1.len()) as int);
        lemma_prefix_left(q12, p13, (p0.len() + p1.len()) as int);
        lemma_prefix_left(q13, p14, (p0.len() + p1.len()) as int);
        lemma_prefix_left(q14, p15, (p0.len() + p1.len()) as int);
    };
    lemma_suffix(q14, p15);
}

/// The status at the right of the picture: the screen shows the name of the tool one
/// column right of the picture on row 1, and whether the pen is down (`true` or `false`)
/// below it on row 2.
#[verifier::rlimit(30)]
pub proof fn law_status_text(e: Editor)
    ensures
        ({
            let im = e.image;
            let w = im.width as int;
            let s = screen_text(e);
            let name = if im.tool == Tool::NoTool {
                seq!['N', 'o', 'n', 'e']
            } else if im.tool == Tool::Pen {
                seq!['P', 'e', 'n']
            } else if im.tool == Tool::Paint {
                seq!['P', 'a', 'i', 'n', 't']
            } else {
                seq!['T', 'e', 'x', 't']
            };
            let down = if im.tool_down {
                seq!['t', 'r', 'u', 'e']
            } else {
                seq!['f', 'a', 'l', 's', 'e']
            };
            &&& contains_text(s, goto_seq((w + 1) as u16, 1) + name)
            &&& contains_text(s, goto_seq((w + 1) as u16, 2) + down)
        }),
{
    let im = e.image;
    let painting = (im.tool == Tool::Paint || im.tool == Tool::Pen) && im.tool_down;
    let w = im.width as int;
    let cur_fg = if painting { fg_of(e.colours.fg) } else { fg_rgb_seq(255, 255, 255) };
    let cur_bg = if painting { bg_of(e.colours.bg) } else { bg_rgb_seq(0, 0, 0) };
    let p0 = bg_reset_seq();
    let p1 = clear_all_seq();
    let p2 = palette_text(e.colours@, (w + 1) as u16, 3);
    let p3 = goto_seq(1, 1);
    let p4 = im@.curr_buffer;
    let p5 = goto_seq(im.cur_x, im.cur_y);
    let p6 = cur_fg;
    let p7 = cur_bg;
    let p8 = seq![cell_at(im@.data, im.cur_x as int, im.cur_y as int).ch];
    let p9 = goto_seq(im.cur_x, im.cur_y);
    let p10 = bg_reset_seq();
    let p11 = goto_seq((w + 1) as u16, 1);
    let p12 = tool_name(im.tool);
    let p13 = goto_seq((w + 1) as u16, 2);
    let p14 = bool_text(im.tool_down);
    let p15 = sheet_text(e.chars.sheet(), (w + 9) as u16, 3, e.chars.cur_x, e.chars.cur_y);
    let q0 = p0;
    let q1 = q0 + p1;
    let q2 = q1 + p2;
    let q3 = q2 + p3;
    let q4 = q3 + p4;
    let q5 = q4 + p5;
    let q6 = q5 + p6;
    let q7 = q6 + p7;
    let q8 = q7 + p8;
    let q9 = q8 + p9;
    let q10 = q9 + p10;
    let q11 = q10 + p11;
    let q12 = q11 + p12;
    let q13 = q12 + p13;
    let q14 = q13 + p14;
    let q15 = q14 + p15;
    let s = screen_text(e);
    assert(s == q15);
    let tool = p11 + p12;
    assert(contains_text(s, tool)) by {
        lemma_assoc(q10, p11, p12);
        lemma_contains_end(q10, tool);
        lemma_contains_left(q12, p13, tool);
        lemma_contains_left(q13, p14, tool);
        lemma_contains_left(q14, p15, tool);
    };
    let down = p13 + p14;
    assert(contains_text(s, down)) by {
        lemma_assoc(q12, p13, p14);
        lemma_contains_end(q12, down);
        lemma_contains_left(q14, p15, down);
    };
    if im.tool == Tool::NoTool {
        assert(tool == p11 + seq!['N', 'o', 'n', 'e']);
    } else if im.tool == Tool::Pen {
        assert(tool == p11 + seq!['P', 'e', 'n']);
    } else if im.tool == Tool::Paint {
        assert(tool == p11 + seq!['P', 'a', 'i', 'n', 't']);
    } else {
        assert(tool == p11 + seq!['T', 'e', 'x', 't']);
    }
    if im.tool_down {
        assert(down == p13 + seq!['t', 'r', 'u', 'e']);
    } else {
        assert(down == p13 + seq!['f', 'a', 'l', 's', 'e']);
    }
}

/// Sums of texts regroup.
proof fn lemma_assoc(x: Seq<char>, y: Seq<char>, z: Seq<char>)
    ensures
        x + y + z == x + (y + z),
{
    assert(x + y + z =~= x + (y + z));
}

/// The start of `x + y` is `x + y` whole.
proof fn lemma_prefix(x: Seq<char>, y: Seq<char>)
    ensures
        (x + y).subrange(0, (x + y).len() as int) == x + y,
{
    assert((x + y).subrange(0, (x + y).len() as int) =~= x + y);
}

/// The first `n` characters of `x + y` are those of `x`, when `x` has that many.
proof fn lemma_prefix_left(x: Seq<char>, y: Seq<char>, n: int)
    requires
        0 <= n <= x.len(),
    ensures
        (x + y).subrange(0, n) == x.subrange(0, n),
{
    assert((x + y).subrange(0, n) =~= x.subrange(0, n));
}

/// The end of `x + y` after `x` is `y`.
proof fn lemma_suffix(x: Seq<char>, y: Seq<char>)
    ensures
        (x + y).subrange(x.len() as int, (x + y).len() as int) == y,
{
    assert((x + y).subrange(x.len() as int, (x + y).len() as int) =~= y);
}

/// Regrouping of the text up to the cursor cell.
proof fn lemma_regroup_front(h: Seq<char>, g: Seq<char>, f: Seq<char>, b: Seq<char>, c: Seq<char>)
    ensures
        h + g + f + b + c == h + (g + (f + b) + c),
{
    assert(h + g + f + b + c =~= h + (g + (f + b) + c));
}

/// Regrouping of the text after the cursor cell.
proof fn lemma_regroup_rest(
    h: Seq<char>,
    x1: Seq<char>,
    x2: Seq<char>,
    x3: Seq<char>,
    x4: Seq<char>,
    x5: Seq<char>,
    x6: Seq<char>,
    x7: Seq<char>,
)
    ensures
        h + x1 + x2 + x3 + x4 + x5 + x6 + x7 == h + (x1 + x2 + x3 + x4 + x5 + x6 + x7),
{
    assert(h + x1 + x2 + x3 + x4 + x5 + x6 + x7 =~= h + (x1 + x2 + x3 + x4 + x5 + x6 + x7));
}

/// The part of `a + b + c` after `a` and as long as `b` is `b`.
proof fn lemma_infix(a: Seq<char>, b: Seq<char>, c: Seq<char>)
    ensures
        (a + b + c).subrange(a.len() as int, (a.len() + b.len()) as int) == b,
{
    assert((a + b + c).subrange(a.len() as int, (a.len() + b.len()) as int) =~= b);
}

} // verus!
