//! The picture being edited, its cursor and drawing tools.
use vstd::prelude::*;
use crate::char_view::CharView;
use crate::colours_view::{ColoursModel, ColoursView};
use crate::format_char::FmtChar;
use crate::input::{Key, can_step_exec, clamp, clamp_exec, step_cursor, step_cursor_exec};
use crate::parser::{
    buffer_text, construct_buffer, is_picture_text, make_data, picture_cells_exec, picture_rows,
    rows_view,
};
use crate::rgb::RGB;
use crate::text::chars_of;

verus! {

/// What a pen-down key does to the picture.
#[derive(Copy, Clone, Debug, PartialEq, Eq, Structural)]
pub enum Tool {
    /// Nothing.
    NoTool,
    /// Puts the pen character, in the pen colours, under the cursor.
    Pen,
    /// Gives the cell under the cursor the pen colours.
    Paint,
    /// Types characters, in the pen colours, moving right.
    Text,
}

/// The picture, its size (width of the first row, number of rows), the cursor (one-based),
/// the text of the picture as last written, and the tool.
pub struct ImageView {
    pub data: Vec<Vec<FmtChar>>,
    pub width: u16,
    pub height: u16,
    pub cur_x: u16,
    pub cur_y: u16,
    pub curr_buffer: String,
    pub tool: Tool,
    pub tool_down: bool,
}

/// The state of the picture view, with rows and text as sequences.
pub struct ImageModel {
    pub data: Seq<Seq<FmtChar>>,
    pub width: u16,
    pub height: u16,
    pub cur_x: u16,
    pub cur_y: u16,
    pub curr_buffer: Seq<char>,
    pub tool: Tool,
    pub tool_down: bool,
}

impl View for ImageView {
    type V = ImageModel;

    open spec fn view(&self) -> ImageModel {
        ImageModel {
            data: rows_view(self.data@),
            width: self.width,
            height: self.height,
            cur_x: self.cur_x,
            cur_y: self.cur_y,
            curr_buffer: self.curr_buffer@,
            tool: self.tool,
            tool_down: self.tool_down,
        }
    }
}

/// The view after the first part of a key: arrows move the cursor and enter lifts or
/// lowers the pen; then the cursor is kept within the picture's width and height.
pub open spec fn image_moved(m: ImageModel, key: Key) -> ImageModel {
    let (x, y) = step_cursor(m.cur_x as int, m.cur_y as int, key);
    let down = if key == Key::Char('\n') { !m.tool_down } else { m.tool_down };
    ImageModel {
        cur_x: clamp(x, m.width as int) as u16,
        cur_y: clamp(y, m.height as int) as u16,
        tool_down: down,
        ..m
    }
}

/// The tool after `key` when the pen is up: `t`, `p` and `o` choose text, pen and paint.
pub open spec fn chosen_tool(tool: Tool, key: Key) -> Tool {
    match key {
        Key::Char('t') => Tool::Text,
        Key::Char('p') => Tool::Pen,
        Key::Char('o') => Tool::Paint,
        _ => tool,
    }
}

/// The cell under the one-based cursor `(x, y)`.
pub open spec fn cell_at(data: Seq<Seq<FmtChar>>, x: int, y: int) -> FmtChar {
    data[y - 1][x - 1]
}

/// There is a cell under the one-based cursor `(x, y)`.
pub open spec fn has_cell(data: Seq<Seq<FmtChar>>, x: int, y: int) -> bool {
    1 <= y <= data.len() && 1 <= x <= data[y - 1].len()
}

/// The pen colour `pen`, or `old` when the pen colour is marked default.
pub open spec fn pen_colour(pen: RGB, old: RGB) -> RGB {
    if !pen.default { pen } else { old }
}

/// The rows with the cell under `(x, y)` replaced.
pub open spec fn with_cell(data: Seq<Seq<FmtChar>>, x: int, y: int, c: FmtChar) -> Seq<Seq<FmtChar>> {
    data.update(y - 1, data[y - 1].update(x - 1, c))
}

/// The key reads or writes the cell under the cursor once it has moved.
pub open spec fn touches_cell(m1: ImageModel, key: Key) -> bool {
    if !m1.tool_down {
        key == Key::Char('g') || key == Key::Char('h')
    } else {
        let tool = m1.tool;
        ||| tool == Tool::Pen
        ||| tool == Tool::Paint
        ||| (tool == Tool::Text && key is Char && key != Key::Char('\n'))
    }
}

/// The view, the pen colours (foreground, background) and the pen character after a key.
///
/// With the pen up, `t`, `p`, `o` choose a tool, `g` takes the colours of the cell under
/// the cursor as pen colours, and `h` also its character as pen character. With the pen
/// down, the text tool writes a typed character (not enter) and moves right, the pen tool
/// writes the pen character, and the paint tool only recolours; each gives the cell the pen
/// colours that are not marked default, and writes the picture's text anew.
pub open spec fn image_step(m: ImageModel, key: Key, fg: RGB, bg: RGB, pen: char) -> (
    ImageModel,
    RGB,
    RGB,
    char,
) {
    let m1 = image_moved(m, key);
    let x = m1.cur_x as int;
    let y = m1.cur_y as int;
    let cell = cell_at(m1.data, x, y);
    if !m1.tool_down {
        let m2 = ImageModel { tool: chosen_tool(m1.tool, key), ..m1 };
        if key == Key::Char('g') {
            (m2, cell.fg, cell.bg, pen)
        } else if key == Key::Char('h') {
            (m2, cell.fg, cell.bg, cell.ch)
        } else {
            (m2, fg, bg, pen)
        }
    } else {
        let painted = FmtChar { ch: cell.ch, fg: pen_colour(fg, cell.fg), bg: pen_colour(bg, cell.bg) };
        if m1.tool == Tool::Text {
            match key {
                Key::Char(c) => if c == '\n' {
                    (m1, fg, bg, pen)
                } else {
                    let data = with_cell(m1.data, x, y, FmtChar { ch: c, ..painted });
                    (
                        ImageModel {
                            data,
                            cur_x: (x + 1) as u16,
                            curr_buffer: buffer_text(data),
                            ..m1
                        },
                        fg,
                        bg,
                        pen,
                    )
                },
                _ => (m1, fg, bg, pen),
            }
        } else if m1.tool == Tool::Pen {
            let data = with_cell(m1.data, x, y, FmtChar { ch: pen, ..painted });
            (ImageModel { data, curr_buffer: buffer_text(data), ..m1 }, fg, bg, pen)
        } else if m1.tool == Tool::Paint {
            let data = with_cell(m1.data, x, y, painted);
            (ImageModel { data, curr_buffer: buffer_text(data), ..m1 }, fg, bg, pen)
        } else {
            (m1, fg, bg, pen)
        }
    }
}

/// A key that the view can take: the cursor can step, a cell lies under it where the key
/// needs one, and the text tool can still move right.
pub open spec fn image_can_handle(m: ImageModel, key: Key) -> bool {
    let m1 = image_moved(m, key);
    &&& crate::input::can_step(m.cur_x, m.cur_y, key)
    &&& touches_cell(m1, key) ==> has_cell(m1.data, m1.cur_x as int, m1.cur_y as int)
    &&& (m1.tool_down && m1.tool == Tool::Text && key is Char && key != Key::Char('\n'))
        ==> m1.cur_x < u16::MAX
}

/// Replaces the cell under the one-based cursor `(x, y)`.
fn set_cell(data: &mut Vec<Vec<FmtChar>>, x: u16, y: u16, c: FmtChar)
    requires
        has_cell(rows_view(old(data)@), x as int, y as int),
    ensures
        rows_view(final(data)@) == with_cell(rows_view(old(data)@), x as int, y as int, c),
{
    let yi = y as usize - 1;
    let xi = x as usize - 1;
    let mut row = data[yi].clone();
    assert(row@ == old(data)@[yi as int]@);
    row.set(xi, c);
    data.set(yi, row);
    assert(rows_view(data@) =~= with_cell(rows_view(old(data)@), x as int, y as int, c));
}

/// Tests whether `contents` can be opened as a picture: it reads as a picture text with at
/// least one row.
pub fn is_openable(contents: &String) -> (res: bool)
    ensures
        res == (contents@.len() + 8 <= usize::MAX && is_picture_text(contents@) && picture_rows(
            contents@,
        ).len() > 0),
{
    let chars = chars_of(contents);
    if chars.len() > usize::MAX - 8 {
        return false;
    }
    match picture_cells_exec(&chars) {
        Some(_) => {
            let rows = make_data(chars);
            rows.len() > 0
        },
        None => false,
    }
}

impl ImageView {
    /// Tests `image_can_handle` on this view.
    pub fn can_handle_exec(&self, key: Key) -> (res: bool)
        ensures
            res == image_can_handle(self@, key),
    {
        if !can_step_exec(self.cur_x, self.cur_y, key) {
            return false;
        }
        let (x1, y1) = step_cursor_exec(self.cur_x, self.cur_y, key);
        let x = clamp_exec(x1, self.width);
        let y = clamp_exec(y1, self.height);
        let down = if key == Key::Char('\n') { !self.tool_down } else { self.tool_down };
        let touches = if !down {
            key == Key::Char('g') || key == Key::Char('h')
        } else {
            self.tool == Tool::Pen || self.tool == Tool::Paint || (self.tool == Tool::Text && match key {
                Key::Char(c) => c != '\n',
                _ => false,
            })
        };
        if touches {
            if y < 1 || y as usize > self.data.len() {
                return false;
            }
            assert(self.data@[y - 1]@ == self@.data[y - 1]);
            if x < 1 || x as usize > self.data[y as usize - 1].len() {
                return false;
            }
        }
        let typing = down && self.tool == Tool::Text && match key {
            Key::Char(c) => c != '\n',
            _ => false,
        };
        !typing || x < u16::MAX
    }

    /// Opens the picture in `contents`; the cursor starts on the first cell with no tool.
    pub fn new(contents: String) -> (v: ImageView)
        requires
            contents@.len() + 8 <= usize::MAX,
            is_picture_text(contents@),
            picture_rows(contents@).len() > 0,
        ensures
            v@.data == picture_rows(contents@),
            v.width == (picture_rows(contents@)[0].len() as u16),
            v.height == (picture_rows(contents@).len() as u16),
            v.cur_x == 1,
            v.cur_y == 1,
            v@.curr_buffer == buffer_text(picture_rows(contents@)),
            v.tool == Tool::NoTool,
            !v.tool_down,
    {
        let data = make_data(chars_of(&contents));
        assert(data@[0]@ == rows_view(data@)[0]);
        let width = data[0].len() as u16;
        let height = data.len() as u16;
        let curr_buffer = construct_buffer(&data);
        ImageView {
            data,
            width,
            height,
            cur_x: 1,
            cur_y: 1,
            curr_buffer,
            tool: Tool::NoTool,
            tool_down: false,
        }
    }

    /// Handles one key on the picture; it may change the pen colours of `colours` and the
    /// pen character of `chars`.
    pub fn handle_event(&mut self, key: Key, colours: &mut ColoursView, chars: &mut CharView)
        requires
            image_can_handle(old(self)@, key),
        ensures
            ({
                let (m, fg, bg, pen) = image_step(
                    old(self)@,
                    key,
                    old(colours).fg,
                    old(colours).bg,
                    old(chars).pen_char,
                );
                &&& final(self)@ == m
                &&& final(colours)@ == (ColoursModel { fg, bg, ..old(colours)@ })
                &&& final(chars).pen_char == pen
                &&& final(chars).char_sheet@ == old(chars).char_sheet@
                &&& final(chars).cur_x == old(chars).cur_x
                &&& final(chars).cur_y == old(chars).cur_y
            }),
    {
        let ghost m0 = self@;
        match key {
            Key::Left => self.cur_x = self.cur_x - 1,
            Key::Right => self.cur_x = self.cur_x + 1,
            Key::Up => self.cur_y = self.cur_y - 1,
            Key::Down => self.cur_y = self.cur_y + 1,
            Key::Char('\n') => self.tool_down = !self.tool_down,
            _ => (),
        }
        if self.cur_x < 1 {
            self.cur_x = 1
        }
        if self.cur_y < 1 {
            self.cur_y = 1;
        }
        if self.cur_x > self.width {
            self.cur_x = self.width;
        }
        if self.cur_y > self.height {
            self.cur_y = self.height;
        }
        let ghost m1 = self@;
        assert(m1 == image_moved(m0, key));
        if !self.tool_down {
            match key {
                Key::Char('t') => {
                    self.tool = Tool::Text;
                },
                Key::Char('p') => {
                    self.tool = Tool::Pen;
                },
                Key::Char('o') => {
                    self.tool = Tool::Paint;
                },
                Key::Char('g') => {
                    let cell = self.cell();
                    colours.fg = cell.fg;
                    colours.bg = cell.bg;
                },
                Key::Char('h') => {
                    let cell = self.cell();
                    colours.fg = cell.fg;
                    colours.bg = cell.bg;
                    chars.pen_char = cell.ch;
                },
                _ => (),
            }
        }
        if self.tool == Tool::Text && self.tool_down {
            match key {
                Key::Char('\n') => (),
                Key::Char(c) => {
                    let cell = self.cell();
                    let mut new_cell = cell;
                    new_cell.ch = c;
                    if !colours.fg.default {
                        new_cell.fg = colours.fg;
                    }
                    if !colours.bg.default {
                        new_cell.bg = colours.bg;
                    }
                    set_cell(&mut self.data, self.cur_x, self.cur_y, new_cell);
                    self.cur_x += 1;
                    self.curr_buffer = construct_buffer(&self.data);
                },
                _ => (),
            }
        } else if self.tool == Tool::Pen && self.tool_down {
            let mut new_cell = self.cell();
            if !colours.fg.default {
                new_cell.fg = colours.fg;
            }
            if !colours.bg.default {
                new_cell.bg = colours.bg;
            }
            new_cell.ch = chars.pen_char;
            set_cell(&mut self.data, self.cur_x, self.cur_y, new_cell);
            self.curr_buffer = construct_buffer(&self.data);
        } else if self.tool == Tool::Paint && self.tool_down {
            let mut new_cell = self.cell();
            if !colours.fg.default {
                new_cell.fg = colours.fg;
            }
            if !colours.bg.default {
                new_cell.bg = colours.bg;
            }
            set_cell(&mut self.data, self.cur_x, self.cur_y, new_cell);
            self.curr_buffer = construct_buffer(&self.data);
        }
    }

    /// The cell under the cursor.
    fn cell(&self) -> (c: FmtChar)
        requires
            has_cell(self@.data, self.cur_x as int, self.cur_y as int),
        ensures
            c == cell_at(self@.data, self.cur_x as int, self.cur_y as int),
    {
        assert(self.data@[self.cur_y - 1]@ == self@.data[self.cur_y - 1]);
        self.data[self.cur_y as usize - 1][self.cur_x as usize - 1]
    }
}


/// The picture's text always matches the picture: a key that starts from a view whose
/// text is that of its rows leads to a view whose text is that of its rows.
pub proof fn law_buffer_follows_picture(m: ImageModel, key: Key, fg: RGB, bg: RGB, pen: char)
    requires
        m.curr_buffer == buffer_text(m.data),
    ensures
        image_step(m, key, fg, bg, pen).0.curr_buffer == buffer_text(image_step(m, key, fg, bg, pen).0.data),
{
}

/// A pen colour marked default changes no cell's colour: with the foreground (background)
/// marked default, every cell keeps its foreground (background), and the picture keeps its
/// shape.
pub proof fn law_default_pen_keeps_colours(m: ImageModel, key: Key, fg: RGB, bg: RGB, pen: char)
    requires
        image_can_handle(m, key),
    ensures
        ({
            let d = image_step(m, key, fg, bg, pen).0.data;
            &&& d.len() == m.data.len()
            &&& forall|i: int| 0 <= i < d.len() ==> #[trigger] d[i].len() == m.data[i].len()
            &&& fg.default ==> forall|i: int, j: int|
                0 <= i < d.len() && 0 <= j < d[i].len() ==> #[trigger] d[i][j].fg == m.data[i][j].fg
            &&& bg.default ==> forall|i: int, j: int|
                0 <= i < d.len() && 0 <= j < d[i].len() ==> #[trigger] d[i][j].bg == m.data[i][j].bg
        }),
{
    let m1 = image_moved(m, key);
    let d = image_step(m, key, fg, bg, pen).0.data;
    let x = m1.cur_x as int;
    let y = m1.cur_y as int;
    if d != m.data {
        assert(has_cell(m.data, x, y));
        assert forall|i: int| 0 <= i < d.len() implies #[trigger] d[i].len() == m.data[i].len() by {
            if i == y - 1 {
            }
        }
        assert(fg.default ==> forall|i: int, j: int|
            0 <= i < d.len() && 0 <= j < d[i].len() ==> #[trigger] d[i][j].fg == m.data[i][j].fg) by {
            if fg.default {
                assert forall|i: int, j: int|
                    0 <= i < d.len() && 0 <= j < d[i].len() implies #[trigger] d[i][j].fg
                    == m.data[i][j].fg by {
                    if i == y - 1 && j == x - 1 {
                    }
                }
            }
        }
        assert(bg.default ==> forall|i: int, j: int|
            0 <= i < d.len() && 0 <= j < d[i].len() ==> #[trigger] d[i][j].bg == m.data[i][j].bg) by {
            if bg.default {
                assert forall|i: int, j: int|
                    0 <= i < d.len() && 0 <= j < d[i].len() implies #[trigger] d[i][j].bg
                    == m.data[i][j].bg by {
                    if i == y - 1 && j == x - 1 {
                    }
                }
            }
        }
    }
}

/// With the pen down only lifting it changes the tool, the pen colours or the pen
/// character: every other key leaves them as they were.
pub proof fn law_pen_down_keeps_tools(m: ImageModel, key: Key, fg: RGB, bg: RGB, pen: char)
    requires
        m.tool_down,
        key != Key::Char('\n'),
    ensures
        image_step(m, key, fg, bg, pen).0.tool == m.tool,
        image_step(m, key, fg, bg, pen).0.tool_down,
        image_step(m, key, fg, bg, pen).1 == fg,
        image_step(m, key, fg, bg, pen).2 == bg,
        image_step(m, key, fg, bg, pen).3 == pen,
{
}


/// With the paint or pen tool down, the cell under the cursor gets each pen colour that is
/// not marked default (and keeps its own otherwise); the pen tool also writes the pen
/// character, the paint tool keeps the cell's character. No other cell changes.
pub proof fn law_paint_and_pen_apply_pen(m: ImageModel, key: Key, fg: RGB, bg: RGB, pen: char)
    requires
        image_can_handle(m, key),
        image_step(m, key, fg, bg, pen).0.tool_down,
        image_step(m, key, fg, bg, pen).0.tool == Tool::Paint || image_step(
            m,
            key,
            fg,
            bg,
            pen,
        ).0.tool == Tool::Pen,
    ensures
        ({
            let r = image_step(m, key, fg, bg, pen).0;
            let x = r.cur_x as int;
            let y = r.cur_y as int;
            let old = m.data[y - 1][x - 1];
            &&& 1 <= y <= m.data.len() && 1 <= x <= m.data[y - 1].len()
            &&& r.data.len() == m.data.len()
            &&& forall|i: int| 0 <= i < m.data.len() ==> #[trigger] r.data[i].len() == m.data[i].len()
            &&& r.data[y - 1][x - 1].fg == (if fg.default { old.fg } else { fg })
            &&& r.data[y - 1][x - 1].bg == (if bg.default { old.bg } else { bg })
            &&& r.data[y - 1][x - 1].ch == (if r.tool == Tool::Pen { pen } else { old.ch })
            &&& forall|i: int, j: int|
                0 <= i < m.data.len() && 0 <= j < m.data[i].len() && !(i == y - 1 && j == x - 1)
                    ==> #[trigger] r.data[i][j] == m.data[i][j]
            &&& image_step(m, key, fg, bg, pen).1 == fg
            &&& image_step(m, key, fg, bg, pen).2 == bg
            &&& image_step(m, key, fg, bg, pen).3 == pen
        }),
{
}

/// With the text tool down, a typed character other than enter is written under the cursor
/// (in the pen colours not marked default) and the cursor moves one column right.
pub proof fn law_text_types(m: ImageModel, c: char, fg: RGB, bg: RGB, pen: char)
    requires
        image_can_handle(m, Key::Char(c)),
        m.tool_down,
        m.tool == Tool::Text,
        c != '\n',
    ensures
        ({
            let r = image_step(m, Key::Char(c), fg, bg, pen).0;
            let x = r.cur_x as int - 1;
            let y = r.cur_y as int;
            let old = m.data[y - 1][x - 1];
            &&& 1 <= y <= m.data.len() && 1 <= x <= m.data[y - 1].len()
            &&& x == (if m.cur_x < 1 { 1 } else if m.cur_x > m.width { m.width as int } else {
                m.cur_x as int
            })
            &&& r.data[y - 1][x - 1].ch == c
            &&& r.data[y - 1][x - 1].fg == (if fg.default { old.fg } else { fg })
            &&& r.data[y - 1][x - 1].bg == (if bg.default { old.bg } else { bg })
            &&& r.tool == Tool::Text && r.tool_down
            &&& r.data.len() == m.data.len()
            &&& forall|i: int| 0 <= i < m.data.len() ==> #[trigger] r.data[i].len() == m.data[i].len()
            &&& forall|i: int, j: int|
                0 <= i < m.data.len() && 0 <= j < m.data[i].len() && !(i == y - 1 && j == x - 1)
                    ==> #[trigger] r.data[i][j] == m.data[i][j]
            &&& image_step(m, Key::Char(c), fg, bg, pen).1 == fg
            &&& image_step(m, Key::Char(c), fg, bg, pen).2 == bg
            &&& image_step(m, Key::Char(c), fg, bg, pen).3 == pen
        }),
{
}

/// The picture changes only while drawing: when after the key the pen is up, or no tool is
/// chosen, or the text tool gets no typed character (enter or a key that is not a
/// character), every cell and the picture's text stay as they were.
pub proof fn law_picture_changes_only_when_drawing(
    m: ImageModel,
    key: Key,
    fg: RGB,
    bg: RGB,
    pen: char,
)
    ensures
        ({
            let r = image_step(m, key, fg, bg, pen).0;
            (!r.tool_down || r.tool == Tool::NoTool || (r.tool == Tool::Text && !(key is Char
                && key != Key::Char('\n')))) ==> r.data == m.data && r.curr_buffer
                == m.curr_buffer
        }),
{
}

/// With the pen up, `g` takes both colours of the cell under the cursor as the pen colours,
/// and `h` also its character as the pen character; the picture and the tool stay.
pub proof fn law_grab_cell(m: ImageModel, key: Key, fg: RGB, bg: RGB, pen: char)
    requires
        image_can_handle(m, key),
        !m.tool_down,
        key == Key::Char('g') || key == Key::Char('h'),
    ensures
        ({
            let (r, f2, b2, p2) = image_step(m, key, fg, bg, pen);
            let c = m.data[r.cur_y - 1][r.cur_x - 1];
            &&& 1 <= r.cur_y <= m.data.len() && 1 <= r.cur_x <= m.data[r.cur_y - 1].len()
            &&& f2 == c.fg
            &&& b2 == c.bg
            &&& p2 == (if key == Key::Char('h') { c.ch } else { pen })
            &&& r.data == m.data
            &&& r.curr_buffer == m.curr_buffer
            &&& r.tool == m.tool
            &&& !r.tool_down
        }),
{
}

/// With the pen up, `t`, `p` and `o` choose the text, pen and paint tools and change
/// nothing else but the cursor's clamping.
pub proof fn law_choose_tool(m: ImageModel, key: Key, fg: RGB, bg: RGB, pen: char)
    requires
        !m.tool_down,
        key == Key::Char('t') || key == Key::Char('p') || key == Key::Char('o'),
    ensures
        ({
            let (r, f2, b2, p2) = image_step(m, key, fg, bg, pen);
            &&& r.tool == (if key == Key::Char('t') { Tool::Text } else if key == Key::Char('p') {
                Tool::Pen
            } else {
                Tool::Paint
            })
            &&& !r.tool_down
            &&& r.data == m.data && r.curr_buffer == m.curr_buffer
            &&& f2 == fg && b2 == bg && p2 == pen
        }),
{
}

/// Arrow keys move the picture cursor one step within the picture's width and height, and
/// enter lifts or lowers the pen, from a cursor inside the picture.
pub proof fn law_picture_cursor(m: ImageModel, key: Key, fg: RGB, bg: RGB, pen: char)
    requires
        1 <= m.cur_x <= m.width,
        1 <= m.cur_y <= m.height,
    ensures
        ({
            let r = image_step(m, key, fg, bg, pen).0;
            &&& key == Key::Left ==> r.cur_x == (if m.cur_x > 1 { m.cur_x - 1 } else { 1 })
                && r.cur_y == m.cur_y
            &&& key == Key::Right ==> r.cur_x == (if m.cur_x < m.width { m.cur_x + 1 } else {
                m.width as int
            }) && r.cur_y == m.cur_y
            &&& key == Key::Up ==> r.cur_y == (if m.cur_y > 1 { m.cur_y - 1 } else { 1 })
                && r.cur_x == m.cur_x
            &&& key == Key::Down ==> r.cur_y == (if m.cur_y < m.height { m.cur_y + 1 } else {
                m.height as int
            }) && r.cur_x == m.cur_x
            &&& key == Key::Char('\n') ==> r.tool_down == !m.tool_down && r.cur_x == m.cur_x
                && r.cur_y == m.cur_y
            &&& key != Key::Char('\n') ==> r.tool_down == m.tool_down
        }),
{
}

} // verus!
