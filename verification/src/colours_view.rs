//! The colour palette: picks the pen's foreground and background colours.
use vstd::prelude::*;
use crate::input::{Key, clamp, step_cursor};
use crate::rgb::{RGB, html_colour, html_string, inverted, rgb};
use crate::terminal::{
    bg_reset_code, bg_reset_seq, bg_rgb_seq, fg_rgb_seq, goto_code, goto_seq,
};
use crate::text::{
    contains_text, lemma_contains_end, lemma_contains_left,
    chars_of, hex_digits_value, hex_u32_of, hex_value, is_hex_digit, is_hex_digit_exec, parse_hex_field,
    push_char, trim_hashes, unsigned_digits,
};

verus! {

/// The palette: sixteen colours in a four by four grid, the pen colours, the palette
/// cursor, and a hexadecimal colour being typed in.
///
/// `inp_fg` (or `inp_bg`) is nonzero while a foreground (background) colour is typed: it is
/// one more than the number of digits typed so far, which overwrite `inp_buffer` from its
/// second character on.
pub struct ColoursView {
    pub fg: RGB,
    pub bg: RGB,
    pub cur_x: u16,
    pub cur_y: u16,
    pub inp_fg: u8,
    pub inp_bg: u8,
    pub inp_buffer: String,
    pub colours: Vec<RGB>,
}

/// The state of a palette, with its text and colours as sequences.
pub struct ColoursModel {
    pub fg: RGB,
    pub bg: RGB,
    pub cur_x: u16,
    pub cur_y: u16,
    pub inp_fg: u8,
    pub inp_bg: u8,
    pub inp_buffer: Seq<char>,
    pub colours: Seq<RGB>,
}

impl View for ColoursView {
    type V = ColoursModel;

    open spec fn view(&self) -> ColoursModel {
        ColoursModel {
            fg: self.fg,
            bg: self.bg,
            cur_x: self.cur_x,
            cur_y: self.cur_y,
            inp_fg: self.inp_fg,
            inp_bg: self.inp_bg,
            inp_buffer: self.inp_buffer@,
            colours: self.colours@,
        }
    }
}

/// The sixteen palette colours, row by row.
pub open spec fn palette() -> Seq<RGB> {
    seq![
        html_colour(0xffffff), html_colour(0xffff01), html_colour(0xff6600), html_colour(0xde0000),
        html_colour(0xff0198), html_colour(0x330099), html_colour(0x0001cd), html_colour(0x0098fe),
        html_colour(0x01ab02), html_colour(0x016701), html_colour(0x673301), html_colour(0x9a6634),
        html_colour(0xbbbbbb), html_colour(0x888888), html_colour(0x444444), html_colour(0x000000),
    ]
}

/// The index in the palette of the colour under the cursor.
pub open spec fn selected_index(m: ColoursModel) -> int {
    (m.cur_y - 1) * 4 + (m.cur_x - 1)
}

/// `s` with the character at `idx` replaced by `c`, when there is one.
pub open spec fn replace_at(s: Seq<char>, idx: int, c: char) -> Seq<char> {
    if 0 <= idx < s.len() {
        s.update(idx, c)
    } else {
        s
    }
}

/// The colour that a completed hexadecimal entry denotes.
pub open spec fn typed_colour(buffer: Seq<char>) -> RGB {
    html_colour(hex_u32_of(trim_hashes(buffer)).unwrap())
}

/// A hexadecimal digit typed into the palette: it overwrites the next character of the
/// entry; after the sixth digit the entry ends and its colour becomes the pen colour.
pub open spec fn hex_typed(m: ColoursModel, c: char) -> ColoursModel {
    let buf = if m.inp_fg != 0 || m.inp_bg != 0 {
        replace_at(m.inp_buffer, m.inp_fg + m.inp_bg, c)
    } else {
        m.inp_buffer
    };
    let m2 = ColoursModel { inp_buffer: buf, ..m };
    let m3 = if m2.inp_fg != 0 {
        if m2.inp_fg + 1 > 6 {
            ColoursModel { inp_fg: 0, fg: typed_colour(buf), ..m2 }
        } else {
            ColoursModel { inp_fg: (m2.inp_fg + 1) as u8, ..m2 }
        }
    } else {
        m2
    };
    if m3.inp_bg != 0 {
        if m3.inp_bg + 1 > 6 {
            ColoursModel { inp_bg: 0, bg: typed_colour(buf), ..m3 }
        } else {
            ColoursModel { inp_bg: (m3.inp_bg + 1) as u8, ..m3 }
        }
    } else {
        m3
    }
}

/// The palette after `key`, before the cursor is kept inside the grid.
pub open spec fn colours_key(m: ColoursModel, key: Key) -> ColoursModel {
    match key {
        Key::Left | Key::Right | Key::Up | Key::Down => {
            let (x, y) = step_cursor(m.cur_x as int, m.cur_y as int, key);
            ColoursModel { cur_x: x as u16, cur_y: y as u16, ..m }
        },
        Key::Char('\n') => ColoursModel { fg: m.colours[selected_index(m)], ..m },
        Key::Backspace => ColoursModel { bg: m.colours[selected_index(m)], ..m },
        Key::Char('r') => ColoursModel { fg: RGB { default: !m.fg.default, ..m.fg }, ..m },
        Key::Char('R') => ColoursModel { bg: RGB { default: !m.bg.default, ..m.bg }, ..m },
        Key::Char('#') => if m.inp_fg == 0 && m.inp_bg == 0 {
            ColoursModel { inp_buffer: html_string(m.fg), inp_fg: 1, ..m }
        } else {
            m
        },
        Key::Char('~') => if m.inp_fg == 0 && m.inp_bg == 0 {
            ColoursModel { inp_buffer: html_string(m.bg), inp_bg: 1, ..m }
        } else {
            m
        },
        Key::Char(c) => if is_hex_digit(c) {
            hex_typed(m, c)
        } else {
            m
        },
        _ => m,
    }
}

/// The palette after `key`: arrows move the cursor within the grid, enter and backspace
/// take the colour under it as foreground and background, `r` and `R` flip whether the
/// foreground and background are marked default, `#` and `~` start typing a foreground and
/// a background colour, and hexadecimal digits continue that.
pub open spec fn colours_step(m: ColoursModel, key: Key) -> ColoursModel {
    let m1 = colours_key(m, key);
    ColoursModel { cur_x: clamp(m1.cur_x as int, 4) as u16, cur_y: clamp(m1.cur_y as int, 4) as u16, ..m1 }
}

/// A palette in a state that its own keys reach: sixteen colours, the cursor on the grid,
/// at most one colour being typed, and the entry so far made of hexadecimal digits after a
/// first `#` or `d` (of `default`).
pub open spec fn colours_wf(m: ColoursModel) -> bool {
    &&& m.colours.len() == 16
    &&& 1 <= m.cur_x <= 4
    &&& 1 <= m.cur_y <= 4
    &&& m.inp_fg <= 6
    &&& m.inp_bg <= 6
    &&& m.inp_fg == 0 || m.inp_bg == 0
    &&& (m.inp_fg != 0 || m.inp_bg != 0) ==> {
        &&& m.inp_buffer.len() == 7
        &&& m.inp_buffer[0] == '#' || m.inp_buffer[0] == 'd'
        &&& forall|k: int| 1 <= k < m.inp_fg + m.inp_bg ==> is_hex_digit(#[trigger] m.inp_buffer[k])
    }
}

/// Sixteen to the power `n`.
pub open spec fn pow16(n: nat) -> nat
    decreases n,
{
    if n == 0 {
        1
    } else {
        16 * pow16((n - 1) as nat)
    }
}

proof fn lemma_hex_digits_bound(s: Seq<char>)
    requires
        forall|i: int| 0 <= i < s.len() ==> is_hex_digit(#[trigger] s[i]),
    ensures
        hex_digits_value(s) < pow16(s.len()),
    decreases s.len(),
{
    if s.len() > 0 {
        let d = s.drop_last();
        assert forall|i: int| 0 <= i < d.len() implies is_hex_digit(#[trigger] d[i]) by {
            assert(d[i] == s[i]);
        }
        lemma_hex_digits_bound(d);
        assert(is_hex_digit(s[s.len() - 1]));
    }
}

/// A completed entry always reads as a hexadecimal number.
proof fn lemma_entry_parses(buf: Seq<char>)
    requires
        buf.len() == 7,
        buf[0] == '#' || buf[0] == 'd',
        forall|k: int| 1 <= k < 7 ==> is_hex_digit(#[trigger] buf[k]),
    ensures
        hex_u32_of(trim_hashes(buf)) is Some,
{
    let d = if buf[0] == '#' { buf.drop_first() } else { buf };
    assert(forall|i: int| 0 <= i < d.len() ==> is_hex_digit(#[trigger] d[i])) by {
        assert forall|i: int| 0 <= i < d.len() implies is_hex_digit(#[trigger] d[i]) by {
            if buf[0] == '#' {
                assert(d[i] == buf[i + 1]);
            } else if i > 0 {
                assert(d[i] == buf[i]);
            }
        }
    }
    assert(trim_hashes(d) == d);
    assert(trim_hashes(buf) == d);
    assert(unsigned_digits(d) == d);
    lemma_hex_digits_bound(d);
    reveal_with_fuel(pow16, 8);
    assert(pow16(7) == 268435456);
    assert(pow16(6) == 16777216);
}


/// The sequence that sets the foreground to `c`.
pub open spec fn fg_of(c: RGB) -> Seq<char> {
    fg_rgb_seq(c.r, c.g, c.b)
}

/// The sequence that sets the background to `c`.
pub open spec fn bg_of(c: RGB) -> Seq<char> {
    bg_rgb_seq(c.r, c.g, c.b)
}

/// Palette row `row` drawn on screen row `y + row` from column `x`: four blocks in its
/// colours.
pub open spec fn block_row(colours: Seq<RGB>, x: u16, y: u16, row: int) -> Seq<char> {
    goto_seq(x, (row + y) as u16) + bg_reset_seq() + fg_of(colours[row * 4 + 0]) + seq!['█']
        + fg_of(colours[row * 4 + 1]) + seq!['█'] + fg_of(colours[row * 4 + 2]) + seq!['█'] + fg_of(
        colours[row * 4 + 3],
    ) + seq!['█']
}

/// The first `n` palette rows.
pub open spec fn block_rows(colours: Seq<RGB>, x: u16, y: u16, n: int) -> Seq<char>
    decreases n,
{
    if n <= 0 {
        seq![]
    } else {
        block_rows(colours, x, y, n - 1) + block_row(colours, x, y, n - 1)
    }
}

/// The palette drawn at `(x, y)`: the grid of colours, a cross on the selected one, and
/// below it the foreground and background (or the entry being typed for one of them),
/// each shown on its own colour.
pub open spec fn palette_text(m: ColoursModel, x: u16, y: u16) -> Seq<char> {
    let fg_string = if m.inp_fg != 0 { m.inp_buffer } else { html_string(m.fg) };
    let bg_string = if m.inp_bg != 0 { m.inp_buffer } else { html_string(m.bg) };
    let sel = m.colours[selected_index(m)];
    block_rows(m.colours, x, y, 4) + goto_seq((m.cur_x - 1 + x) as u16, (m.cur_y - 1 + y) as u16)
        + fg_of(inverted(sel)) + bg_of(sel) + seq!['╳'] + goto_seq(x, (y + 4) as u16) + bg_of(m.fg)
        + fg_of(inverted(m.fg)) + fg_string + goto_seq(x, (y + 5) as u16) + bg_of(m.bg) + fg_of(
        inverted(m.bg),
    ) + bg_string
}

/// Appends the sequence that sets the foreground to `c`.
fn push_fg(s: &mut String, c: RGB)
    ensures
        final(s)@ == old(s)@ + fg_of(c),
{
    let code = c.to_fg();
    s.append(code.as_str());
}

/// Appends the sequence that sets the background to `c`.
fn push_bg(s: &mut String, c: RGB)
    ensures
        final(s)@ == old(s)@ + bg_of(c),
{
    let code = c.to_bg();
    s.append(code.as_str());
}

/// Appends palette row `row`.
#[verifier::rlimit(40)]
fn push_block_row(render: &mut String, colours: &Vec<RGB>, x: u16, y: u16, row: usize)
    requires
        colours.len() == 16,
        row < 4,
        y + 5 <= u16::MAX,
        x != 0 || y != 0,
    ensures
        final(render)@ == old(render)@ + block_row(colours@, x, y, row as int),
{
    let g = goto_code(x, row as u16 + y);
    render.append(g.as_str());
    let reset = bg_reset_code();
    render.append(reset.as_str());
    push_fg(render, colours[row * 4 + 0]);
    push_char(render, '█');
    push_fg(render, colours[row * 4 + 1]);
    push_char(render, '█');
    push_fg(render, colours[row * 4 + 2]);
    push_char(render, '█');
    push_fg(render, colours[row * 4 + 3]);
    push_char(render, '█');
    assert(render@ =~= old(render)@ + block_row(colours@, x, y, row as int));
}

proof fn lemma_html_string_shape(c: RGB)
    ensures
        html_string(c).len() == 7,
        html_string(c)[0] == '#' || html_string(c)[0] == 'd',
{
    reveal_strlit("default");
}

/// `s` with the character at `idx` replaced by `c`.
fn replaced_at(s: &String, idx: u8, c: char) -> (res: String)
    ensures
        res@ == replace_at(s@, idx as int, c),
{
    let chars = chars_of(s);
    let mut res = String::new();
    let mut i: usize = 0;
    while i < chars.len()
        invariant
            chars@ == s@,
            i <= chars.len(),
            res@ == replace_at(s@, idx as int, c).take(i as int),
        decreases chars.len() - i,
    {
        if i == idx as usize {
            push_char(&mut res, c);
        } else {
            push_char(&mut res, chars[i]);
        }
        assert(res@ =~= replace_at(s@, idx as int, c).take(i + 1));
        i = i + 1;
    }
    assert(res@ =~= replace_at(s@, idx as int, c));
    res
}

impl ColoursView {
    pub open spec fn wf(&self) -> bool {
        colours_wf(self@)
    }

    /// Tests `wf`.
    pub fn is_wf(&self) -> (res: bool)
        ensures
            res == self.wf(),
    {
        if !(self.colours.len() == 16 && 1 <= self.cur_x && self.cur_x <= 4 && 1 <= self.cur_y
            && self.cur_y <= 4 && self.inp_fg <= 6 && self.inp_bg <= 6 && (self.inp_fg == 0
            || self.inp_bg == 0)) {
            return false;
        }
        if self.inp_fg == 0 && self.inp_bg == 0 {
            return true;
        }
        let chars = chars_of(&self.inp_buffer);
        if chars.len() != 7 || !(chars[0] == '#' || chars[0] == 'd') {
            return false;
        }
        let n = (self.inp_fg + self.inp_bg) as usize;
        let mut k: usize = 1;
        while k < n
            invariant
                chars@ == self.inp_buffer@,
                chars.len() == 7,
                n <= 6,
                n == self.inp_fg + self.inp_bg,
                self.inp_fg != 0 || self.inp_bg != 0,
                1 <= k <= n || n == 1,
                k >= 1,
                forall|j: int| 1 <= j < k ==> is_hex_digit(#[trigger] chars@[j]),
            decreases n - k,
        {
            if !is_hex_digit_exec(chars[k]) {
                assert(!is_hex_digit(self@.inp_buffer[k as int]));
                return false;
            }
            k = k + 1;
        }
        true
    }

    /// Tests `can_draw`.
    pub fn can_draw_exec(&self, x: u16, y: u16) -> (res: bool)
        ensures
            res == self.can_draw(x, y),
    {
        self.is_wf() && y <= 65530 && x as u32 + (self.cur_x as u32 - 1) <= 65535 && (x != 0
            || y != 0)
    }

    /// The palette with its sixteen colours, black on white, cursor on the first colour.
    pub fn new() -> (v: ColoursView)
        ensures
            v@.colours == palette(),
            v.fg == crate::rgb::rgb(0, 0, 0),
            v.bg == crate::rgb::rgb(255, 255, 255),
            v.cur_x == 1,
            v.cur_y == 1,
            v.inp_fg == 0,
            v.inp_bg == 0,
            v@.inp_buffer == Seq::<char>::empty(),
            v.wf(),
    {
        let mut colours: Vec<RGB> = Vec::new();
        colours.push(RGB::from_html(0xffffff));
        colours.push(RGB::from_html(0xffff01));
        colours.push(RGB::from_html(0xff6600));
        colours.push(RGB::from_html(0xde0000));
        colours.push(RGB::from_html(0xff0198));
        colours.push(RGB::from_html(0x330099));
        colours.push(RGB::from_html(0x0001cd));
        colours.push(RGB::from_html(0x0098fe));
        colours.push(RGB::from_html(0x01ab02));
        colours.push(RGB::from_html(0x016701));
        colours.push(RGB::from_html(0x673301));
        colours.push(RGB::from_html(0x9a6634));
        colours.push(RGB::from_html(0xbbbbbb));
        colours.push(RGB::from_html(0x888888));
        colours.push(RGB::from_html(0x444444));
        colours.push(RGB::from_html(0x000000));
        assert(colours@ =~= palette());
        ColoursView {
            fg: RGB::new(0, 0, 0),
            bg: RGB::new(255, 255, 255),
            cur_x: 1,
            cur_y: 1,
            inp_fg: 0,
            inp_bg: 0,
            inp_buffer: String::new(),
            colours,
        }
    }

    /// Handles one key on the palette.
    pub fn handle_event(&mut self, key: Key)
        requires
            old(self).wf(),
        ensures
            final(self)@ == colours_step(old(self)@, key),
            final(self).wf(),
    {
        let ghost m = self@;
        match key {
            Key::Left => self.cur_x = self.cur_x - 1,
            Key::Right => self.cur_x = self.cur_x + 1,
            Key::Up => self.cur_y = self.cur_y - 1,
            Key::Down => self.cur_y = self.cur_y + 1,
            Key::Char('\n') => {
                self.fg = self.colours[((self.cur_y - 1) * 4 + (self.cur_x - 1)) as usize];
            },
            Key::Backspace => {
                self.bg = self.colours[((self.cur_y - 1) * 4 + (self.cur_x - 1)) as usize];
            },
            Key::Char('r') => {
                self.fg.default = !self.fg.default;
            },
            Key::Char('R') => {
                self.bg.default = !self.bg.default;
            },
            Key::Char('#') => {
                if self.inp_fg == 0 && self.inp_bg == 0 {
                    self.inp_buffer = self.fg.to_html_string();
                    self.inp_fg = 1;
                    proof {
                        lemma_html_string_shape(m.fg);
                    }
                }
            },
            Key::Char('~') => {
                if self.inp_fg == 0 && self.inp_bg == 0 {
                    self.inp_buffer = self.bg.to_html_string();
                    self.inp_bg = 1;
                    proof {
                        lemma_html_string_shape(m.bg);
                    }
                }
            },
            Key::Char(c) => {
                if is_hex_digit_exec(c) {
                    if self.inp_fg != 0 || self.inp_bg != 0 {
                        self.inp_buffer = replaced_at(&self.inp_buffer, self.inp_fg + self.inp_bg, c);
                    }
                    let ghost buf = self.inp_buffer@;
                    assert(self.inp_fg != 0 || self.inp_bg != 0 ==> forall|k: int|
                        1 <= k < m.inp_fg + m.inp_bg + 1 ==> is_hex_digit(#[trigger] buf[k]));
                    if self.inp_fg != 0 {
                        self.inp_fg += 1;
                        if self.inp_fg > 6 {
                            self.inp_fg = 0;
                            proof {
                                lemma_entry_parses(buf);
                            }
                            self.fg = RGB::from_html(parse_hex_field(&self.inp_buffer).unwrap());
                        }
                    }
                    if self.inp_bg != 0 {
                        self.inp_bg += 1;
                        if self.inp_bg > 6 {
                            self.inp_bg = 0;
                            proof {
                                lemma_entry_parses(buf);
                            }
                            self.bg = RGB::from_html(parse_hex_field(&self.inp_buffer).unwrap());
                        }
                    }
                }
            },
            _ => {},
        }
        if self.cur_x < 1 {
            self.cur_x = 1;
        }
        if self.cur_y < 1 {
            self.cur_y = 1;
        }
        if self.cur_x > 4 {
            self.cur_x = 4;
        }
        if self.cur_y > 4 {
            self.cur_y = 4;
        }
    }

    /// The palette can be drawn at `(x, y)`: all its screen rows fit a `u16`, and it does
    /// not start at `(0, 0)`.
    pub open spec fn can_draw(&self, x: u16, y: u16) -> bool {
        &&& self.wf()
        &&& y + 5 <= u16::MAX
        &&& x + (self.cur_x - 1) <= u16::MAX
        &&& x != 0 || y != 0
    }

    /// The palette drawn at column `x`, row `y`.
    pub fn draw(&self, x: u16, y: u16) -> (render: String)
        requires
            self.can_draw(x, y),
        ensures
            render@ == palette_text(self@, x, y),
    {
        let fg_string: String;
        let bg_string: String;
        if self.inp_fg != 0 {
            fg_string = self.inp_buffer.clone();
        } else {
            fg_string = self.fg.to_html_string();
        }
        if self.inp_bg != 0 {
            bg_string = self.inp_buffer.clone();
        } else {
            bg_string = self.bg.to_html_string();
        }
        let mut render = String::new();
        let mut row: usize = 0;
        while row < 4
            invariant
                self.can_draw(x, y),
                row <= 4,
                render@ == block_rows(self.colours@, x, y, row as int),
            decreases 4 - row,
        {
            push_block_row(&mut render, &self.colours, x, y, row);
            row = row + 1;
        }
        let sel = self.colours[((self.cur_y - 1) * 4 + (self.cur_x - 1)) as usize];
        let ghost before = render@;
        let g = goto_code((self.cur_x - 1) + x, (self.cur_y - 1) + y);
        render.append(g.as_str());
        push_fg(&mut render, sel.get_inverted());
        push_bg(&mut render, sel);
        push_char(&mut render, '╳');
        let g = goto_code(x, y + 4);
        render.append(g.as_str());
        push_bg(&mut render, self.fg);
        push_fg(&mut render, self.fg.get_inverted());
        render.append(fg_string.as_str());
        let g = goto_code(x, y + 5);
        render.append(g.as_str());
        push_bg(&mut render, self.bg);
        push_fg(&mut render, self.bg.get_inverted());
        render.append(bg_string.as_str());
        assert(render@ =~= palette_text(self@, x, y));
        render
    }
}


/// The palette after typing `start` and then the six characters of `d`, one key each.
pub open spec fn typed_entry(m: ColoursModel, start: char, d: Seq<char>) -> ColoursModel {
    let m1 = colours_step(m, Key::Char(start));
    let m2 = colours_step(m1, Key::Char(d[0]));
    let m3 = colours_step(m2, Key::Char(d[1]));
    let m4 = colours_step(m3, Key::Char(d[2]));
    let m5 = colours_step(m4, Key::Char(d[3]));
    let m6 = colours_step(m5, Key::Char(d[4]));
    colours_step(m6, Key::Char(d[5]))
}

/// The count of the entry that `start` opens: `#` the foreground's, `~` the background's.
spec fn entry_count(m: ColoursModel, start: char) -> u8 {
    if start == '#' { m.inp_fg } else { m.inp_bg }
}

/// The count of the other entry.
spec fn other_count(m: ColoursModel, start: char) -> u8 {
    if start == '#' { m.inp_bg } else { m.inp_fg }
}

/// The colour that the entry opened by `start` sets.
spec fn entry_colour(m: ColoursModel, start: char) -> RGB {
    if start == '#' { m.fg } else { m.bg }
}

/// The other pen colour.
spec fn other_colour(m: ColoursModel, start: char) -> RGB {
    if start == '#' { m.bg } else { m.fg }
}

proof fn lemma_hex_digit_step(m: ColoursModel, start: char, c: char)
    requires
        colours_wf(m),
        start == '#' || start == '~',
        1 <= entry_count(m, start) <= 6,
        other_count(m, start) == 0,
        is_hex_digit(c),
    ensures
        ({
            let k = entry_count(m, start);
            let buf = m.inp_buffer.update(k as int, c);
            let m2 = colours_step(m, Key::Char(c));
            &&& m2.inp_buffer == buf
            &&& other_colour(m2, start) == other_colour(m, start)
            &&& other_count(m2, start) == 0
            &&& k < 6 ==> entry_count(m2, start) == k + 1 && entry_colour(m2, start) == entry_colour(
                m,
                start,
            ) && colours_wf(m2)
            &&& k == 6 ==> entry_count(m2, start) == 0 && entry_colour(m2, start) == typed_colour(buf)
        }),
{
    assert(c != '\n' && c != 'r' && c != 'R' && c != '#' && c != '~');
}

proof fn lemma_hex_prepend(c: char, s: Seq<char>)
    ensures
        hex_digits_value(seq![c] + s) == hex_value(c) * pow16(s.len()) + hex_digits_value(s),
    decreases s.len(),
{
    if s.len() == 0 {
        assert((seq![c] + s).drop_last() =~= Seq::<char>::empty());
        assert(seq![c] + s =~= seq![c]);
        assert(hex_digits_value(Seq::<char>::empty()) == 0);
        assert(pow16(0) == 1);
        assert(hex_digits_value(seq![c]) == hex_digits_value(seq![c].drop_last()) * 16 + hex_value(c));
    } else {
        let s0 = s.drop_last();
        assert((seq![c] + s).drop_last() =~= seq![c] + s0);
        assert((seq![c] + s).last() == s.last());
        lemma_hex_prepend(c, s0);
        let a = hex_value(c) as int;
        let p = pow16(s0.len()) as int;
        let h = hex_digits_value(s0) as int;
        assert((a * p + h) * 16 == a * (16 * p) + h * 16) by (nonlinear_arith);
        assert(pow16(s.len()) == 16 * pow16(s0.len()));
        assert(hex_digits_value(s) == hex_digits_value(s0) * 16 + hex_value(s.last()));
        assert(hex_digits_value(seq![c] + s) == hex_digits_value(seq![c] + s0) * 16 + hex_value(s.last()));
    }
}

proof fn lemma_low_24_bits(v: nat)
    requires
        v < 16777216,
    ensures
        html_colour((13 * 16777216 + v) as u32) == html_colour(v as u32),
{
    let n = 13 * 16777216 + v;
    assert(n / 0x10000 == 13 * 256 + v / 0x10000) by (nonlinear_arith)
        requires
            n == 13 * 16777216 + v,
            v < 16777216,
    ;
    assert(n / 0x100 == 13 * 65536 + v / 0x100) by (nonlinear_arith)
        requires
            n == 13 * 16777216 + v,
            v < 16777216,
    ;
    assert((13 * 256 + v / 0x10000) % 0x100 == (v / 0x10000) % 0x100) by (nonlinear_arith);
    assert((13 * 65536 + v / 0x100) % 0x100 == (v / 0x100) % 0x100) by (nonlinear_arith);
    assert(n % 0x100 == v % 0x100) by (nonlinear_arith)
        requires
            n == 13 * 16777216 + v,
    ;
}

/// The colour that a completed entry spells: the six digits after its first character,
/// whether that was the `#` of a colour or the `d` of `default`.
proof fn lemma_entry_colour(b0: char, d: Seq<char>)
    requires
        b0 == '#' || b0 == 'd',
        d.len() == 6,
        forall|i: int| 0 <= i < 6 ==> is_hex_digit(#[trigger] d[i]),
    ensures
        typed_colour(seq![b0] + d) == html_colour(hex_digits_value(d) as u32),
{
    let buf = seq![b0] + d;
    lemma_hex_digits_bound(d);
    reveal_with_fuel(pow16, 7);
    assert(pow16(6) == 16777216);
    assert(d[0] != '#' && d[0] != '+');
    assert(trim_hashes(d) == d);
    assert(unsigned_digits(d) == d);
    if b0 == '#' {
        assert(buf.drop_first() =~= d);
        assert(trim_hashes(buf) == d);
    } else {
        assert(trim_hashes(buf) == buf);
        assert(unsigned_digits(buf) == buf);
        lemma_hex_prepend('d', d);
        assert(hex_value('d') == 13);
        assert forall|i: int| 0 <= i < buf.len() implies is_hex_digit(#[trigger] buf[i]) by {
            if i > 0 {
                assert(buf[i] == d[i - 1]);
            }
        }
        lemma_low_24_bits(hex_digits_value(d));
    }
}

/// Typing `#` (or `~`) and then six hexadecimal digits, when no colour is being typed,
/// makes the colour they spell the foreground (or background), whatever that colour was
/// before, even one marked default; the other pen colour stays, and no entry is left open.
/// Each key is one call of `ColoursView::handle_event`, whose result is `colours_step`.
pub proof fn law_typed_colour(m: ColoursModel, start: char, d: Seq<char>)
    requires
        colours_wf(m),
        m.inp_fg == 0,
        m.inp_bg == 0,
        start == '#' || start == '~',
        d.len() == 6,
        forall|i: int| 0 <= i < 6 ==> is_hex_digit(#[trigger] d[i]),
    ensures
        ({
            let r = typed_entry(m, start, d);
            let v = html_colour(hex_digits_value(d) as u32);
            &&& r.inp_fg == 0 && r.inp_bg == 0
            &&& start == '#' ==> r.fg == v && r.bg == m.bg
            &&& start == '~' ==> r.bg == v && r.fg == m.fg
        }),
{
    lemma_html_string_shape(entry_colour(m, start));
    let m1 = colours_step(m, Key::Char(start));
    assert(entry_count(m1, start) == 1 && m1.inp_buffer == html_string(entry_colour(m, start)));
    assert(other_colour(m1, start) == other_colour(m, start));
    assert(colours_wf(m1));
    lemma_hex_digit_step(m1, start, d[0]);
    let m2 = colours_step(m1, Key::Char(d[0]));
    lemma_hex_digit_step(m2, start, d[1]);
    let m3 = colours_step(m2, Key::Char(d[1]));
    lemma_hex_digit_step(m3, start, d[2]);
    let m4 = colours_step(m3, Key::Char(d[2]));
    lemma_hex_digit_step(m4, start, d[3]);
    let m5 = colours_step(m4, Key::Char(d[3]));
    lemma_hex_digit_step(m5, start, d[4]);
    let m6 = colours_step(m5, Key::Char(d[4]));
    lemma_hex_digit_step(m6, start, d[5]);
    let m7 = colours_step(m6, Key::Char(d[5]));
    let b0 = html_string(entry_colour(m, start))[0];
    assert(m7.inp_buffer =~= seq![b0] + d);
    lemma_entry_colour(b0, d);
}


/// The palette keys on a palette in a reachable state: enter makes the colour under the
/// cursor (row `cur_y`, column `cur_x` of the four by four grid) the foreground and
/// backspace the background; `r` and `R` flip only the `default` mark of the foreground and
/// background; the arrows move the cursor one step within the grid; no key changes the
/// palette's colours.
pub proof fn law_palette_keys(m: ColoursModel, key: Key)
    requires
        colours_wf(m),
    ensures
        ({
            let under = m.colours[(m.cur_y - 1) * 4 + (m.cur_x - 1)];
            let r = colours_step(m, key);
            &&& r.colours == m.colours
            &&& key == Key::Char('\n') ==> r.fg == under && r.bg == m.bg
            &&& key == Key::Backspace ==> r.bg == under && r.fg == m.fg
            &&& key == Key::Char('r') ==> r.fg.r == m.fg.r && r.fg.g == m.fg.g && r.fg.b == m.fg.b
                && r.fg.default == !m.fg.default && r.bg == m.bg
            &&& key == Key::Char('R') ==> r.bg.r == m.bg.r && r.bg.g == m.bg.g && r.bg.b == m.bg.b
                && r.bg.default == !m.bg.default && r.fg == m.fg
            &&& key == Key::Left ==> r.cur_x == (if m.cur_x > 1 { m.cur_x - 1 } else { 1 })
                && r.cur_y == m.cur_y
            &&& key == Key::Right ==> r.cur_x == (if m.cur_x < 4 { m.cur_x + 1 } else { 4 })
                && r.cur_y == m.cur_y
            &&& key == Key::Up ==> r.cur_y == (if m.cur_y > 1 { m.cur_y - 1 } else { 1 })
                && r.cur_x == m.cur_x
            &&& key == Key::Down ==> r.cur_y == (if m.cur_y < 4 { m.cur_y + 1 } else { 4 })
                && r.cur_x == m.cur_x
            &&& (key == Key::Left || key == Key::Right || key == Key::Up || key == Key::Down)
                ==> r.fg == m.fg && r.bg == m.bg
        }),
{
}

/// The first `n` rows hold row `r` for each `r < n`.
proof fn lemma_block_rows_hold(colours: Seq<RGB>, x: u16, y: u16, n: int, r: int)
    requires
        0 <= r < n,
    ensures
        contains_text(block_rows(colours, x, y, n), block_row(colours, x, y, r)),
    decreases n,
{
    let t = block_row(colours, x, y, r);
    assert(block_rows(colours, x, y, n) == block_rows(colours, x, y, n - 1) + block_row(colours, x, y, n - 1));
    if r == n - 1 {
        lemma_contains_end(block_rows(colours, x, y, n - 1), t);
    } else {
        lemma_block_rows_hold(colours, x, y, n - 1, r);
        lemma_contains_left(block_rows(colours, x, y, n - 1), block_row(colours, x, y, n - 1), t);
    }
}

/// Four more pieces regroup after `h`.
proof fn lemma_regroup4(h: Seq<char>, a: Seq<char>, b: Seq<char>, c: Seq<char>, d: Seq<char>)
    ensures
        h + a + b + c + d == h + (a + b + c + d),
{
    assert(h + a + b + c + d =~= h + (a + b + c + d));
}

/// The palette drawn at column `x`, row `y` shows palette row `r` (counted from zero) on
/// screen row `y + r` from column `x` on the default background: one block in the colour of
/// each of the entries `4r` to `4r + 3`, left to right, so that entry `4r + k` stands in
/// column `x + k`.
pub proof fn law_palette_rows(m: ColoursModel, x: u16, y: u16, r: int)
    requires
        0 <= r < 4,
    ensures
        contains_text(
            palette_text(m, x, y),
            goto_seq(x, (y + r) as u16) + bg_reset_seq() + fg_of(m.colours[4 * r]) + seq!['█']
                + fg_of(m.colours[4 * r + 1]) + seq!['█'] + fg_of(m.colours[4 * r + 2]) + seq!['█']
                + fg_of(m.colours[4 * r + 3]) + seq!['█'],
        ),
{
    let t = block_row(m.colours, x, y, r);
    assert(t == goto_seq(x, (y + r) as u16) + bg_reset_seq() + fg_of(m.colours[4 * r]) + seq!['█']
        + fg_of(m.colours[4 * r + 1]) + seq!['█'] + fg_of(m.colours[4 * r + 2]) + seq!['█']
        + fg_of(m.colours[4 * r + 3]) + seq!['█']);
    lemma_block_rows_hold(m.colours, x, y, 4, r);
    let fg_string = if m.inp_fg != 0 { m.inp_buffer } else { html_string(m.fg) };
    let bg_string = if m.inp_bg != 0 { m.inp_buffer } else { html_string(m.bg) };
    let sel = m.colours[selected_index(m)];
    let q0 = block_rows(m.colours, x, y, 4);
    let q1 = q0 + goto_seq((m.cur_x - 1 + x) as u16, (m.cur_y - 1 + y) as u16);
    let q2 = q1 + fg_of(inverted(sel));
    let q3 = q2 + bg_of(sel);
    let q4 = q3 + seq!['╳'];
    let q5 = q4 + goto_seq(x, (y + 4) as u16);
    let q6 = q5 + bg_of(m.fg);
    let q7 = q6 + fg_of(inverted(m.fg));
    let q8 = q7 + fg_string;
    let q9 = q8 + goto_seq(x, (y + 5) as u16);
    let q10 = q9 + bg_of(m.bg);
    let q11 = q10 + fg_of(inverted(m.bg));
    let q12 = q11 + bg_string;
    assert(palette_text(m, x, y) == q12);
    lemma_contains_left(q0, goto_seq((m.cur_x - 1 + x) as u16, (m.cur_y - 1 + y) as u16), t);
    lemma_contains_left(q1, fg_of(inverted(sel)), t);
    lemma_contains_left(q2, bg_of(sel), t);
    lemma_contains_left(q3, seq!['╳'], t);
    lemma_contains_left(q4, goto_seq(x, (y + 4) as u16), t);
    lemma_contains_left(q5, bg_of(m.fg), t);
    lemma_contains_left(q6, fg_of(inverted(m.fg)), t);
    lemma_contains_left(q7, fg_string, t);
    lemma_contains_left(q8, goto_seq(x, (y + 5) as u16), t);
    lemma_contains_left(q9, bg_of(m.bg), t);
    lemma_contains_left(q10, fg_of(inverted(m.bg)), t);
    lemma_contains_left(q11, bg_string, t);
}

/// The palette drawn at column `x`, row `y` marks the entry under the cursor with a cross
/// on that entry's colour, at column `x + cur_x - 1`, row `y + cur_y - 1`: the place of the
/// block of the colour that enter makes the foreground. Below the grid, row `y + 4` shows
/// the foreground's text (the entry being typed while a foreground is typed) on the
/// foreground, row `y + 5` the background's likewise; each text and the cross are black on
/// a light colour (red, green and blue adding up to more than 384) and white otherwise.
pub proof fn law_palette_marks(m: ColoursModel, x: u16, y: u16)
    requires
        colours_wf(m),
    ensures
        ({
            let s = palette_text(m, x, y);
            let sel = colours_step(m, Key::Char('\n')).fg;
            let ink_sel = if sel.r + sel.g + sel.b > 384 { rgb(0, 0, 0) } else { rgb(255, 255, 255) };
            let ink_fg = if m.fg.r + m.fg.g + m.fg.b > 384 {
                rgb(0, 0, 0)
            } else {
                rgb(255, 255, 255)
            };
            let ink_bg = if m.bg.r + m.bg.g + m.bg.b > 384 {
                rgb(0, 0, 0)
            } else {
                rgb(255, 255, 255)
            };
            let fg_text = if m.inp_fg != 0 { m.inp_buffer } else { html_string(m.fg) };
            let bg_text = if m.inp_bg != 0 { m.inp_buffer } else { html_string(m.bg) };
            &&& contains_text(
                s,
                goto_seq((x + m.cur_x - 1) as u16, (y + m.cur_y - 1) as u16) + fg_of(ink_sel)
                    + bg_of(sel) + seq!['╳'],
            )
            &&& contains_text(s, goto_seq(x, (y + 4) as u16) + bg_of(m.fg) + fg_of(ink_fg) + fg_text)
            &&& contains_text(s, goto_seq(x, (y + 5) as u16) + bg_of(m.bg) + fg_of(ink_bg) + bg_text)
        }),
{
    law_palette_keys(m, Key::Char('\n'));
    let fg_string = if m.inp_fg != 0 { m.inp_buffer } else { html_string(m.fg) };
    let bg_string = if m.inp_bg != 0 { m.inp_buffer } else { html_string(m.bg) };
    let sel = m.colours[selected_index(m)];
    let g = goto_seq((m.cur_x - 1 + x) as u16, (m.cur_y - 1 + y) as u16);
    assert(g == goto_seq((x + m.cur_x - 1) as u16, (y + m.cur_y - 1) as u16));
    let q0 = block_rows(m.colours, x, y, 4);
    let cross = g + fg_of(inverted(sel)) + bg_of(sel) + seq!['╳'];
    let fg_line = goto_seq(x, (y + 4) as u16) + bg_of(m.fg) + fg_of(inverted(m.fg)) + fg_string;
    let bg_line = goto_seq(x, (y + 5) as u16) + bg_of(m.bg) + fg_of(inverted(m.bg)) + bg_string;
    let q4 = q0 + g + fg_of(inverted(sel)) + bg_of(sel) + seq!['╳'];
    let q8 = q4 + goto_seq(x, (y + 4) as u16) + bg_of(m.fg) + fg_of(inverted(m.fg)) + fg_string;
    let q12 = q8 + goto_seq(x, (y + 5) as u16) + bg_of(m.bg) + fg_of(inverted(m.bg)) + bg_string;
    assert(palette_text(m, x, y) == q12);
    lemma_regroup4(q0, g, fg_of(inverted(sel)), bg_of(sel), seq!['╳']);
    lemma_regroup4(q4, goto_seq(x, (y + 4) as u16), bg_of(m.fg), fg_of(inverted(m.fg)), fg_string);
    lemma_regroup4(q8, goto_seq(x, (y + 5) as u16), bg_of(m.bg), fg_of(inverted(m.bg)), bg_string);
    lemma_contains_end(q0, cross);
    lemma_contains_left(q4, fg_line, cross);
    lemma_contains_left(q8, bg_line, cross);
    lemma_contains_end(q4, fg_line);
    lemma_contains_left(q8, bg_line, fg_line);
    lemma_contains_end(q8, bg_line);
}

/// Typing a colour in, one key at a time, on a palette in a reachable state. With no entry
/// open, `#` opens one for the foreground and `~` for the background, starting from the
/// text of that colour as it is, and a hexadecimal digit does nothing; with an entry open,
/// `#` and `~` do nothing, and a hexadecimal digit overwrites the next character of the
/// entry: after the sixth digit the entry closes, before it the pen colours stay. Any other
/// character key but enter, `r` and `R` does nothing.
pub proof fn law_palette_entry(m: ColoursModel, c: char)
    requires
        colours_wf(m),
        c != '\n' && c != 'r' && c != 'R',
    ensures
        ({
            let r = colours_step(m, Key::Char(c));
            let open = m.inp_fg != 0 || m.inp_bg != 0;
            let n = m.inp_fg + m.inp_bg;
            &&& r.colours == m.colours && r.cur_x == m.cur_x && r.cur_y == m.cur_y
            &&& c == '#' ==> if open {
                r == m
            } else {
                r.inp_fg == 1 && r.inp_bg == 0 && r.inp_buffer == html_string(m.fg) && r.fg == m.fg
                    && r.bg == m.bg
            }
            &&& c == '~' ==> if open {
                r == m
            } else {
                r.inp_bg == 1 && r.inp_fg == 0 && r.inp_buffer == html_string(m.bg) && r.fg == m.fg
                    && r.bg == m.bg
            }
            &&& !is_hex_digit(c) && c != '#' && c != '~' ==> r == m
            &&& is_hex_digit(c) && !open ==> r == m
            &&& is_hex_digit(c) && open ==> {
                &&& r.inp_buffer == m.inp_buffer.update(n, c)
                &&& n < 6 ==> r.inp_fg + r.inp_bg == n + 1 && (r.inp_fg != 0) == (m.inp_fg != 0)
                    && r.fg == m.fg && r.bg == m.bg
                &&& n == 6 ==> r.inp_fg == 0 && r.inp_bg == 0
                &&& m.inp_fg != 0 ==> r.bg == m.bg
                &&& m.inp_bg != 0 ==> r.fg == m.fg
            }
        }),
{
}

} // verus!
