//! The character sheet: a grid of characters from which the pen character is picked.
use vstd::prelude::*;
use crate::input::{Key, can_step, can_step_exec, clamp, clamp_exec, step_cursor, step_cursor_exec};
use crate::parser::{char_sheet_rows, make_char_sheet, rows_view};
use crate::terminal::{bg_reset_code, bg_reset_seq, fg_reset_code, fg_reset_seq, goto_code, goto_seq};
use crate::text::{contains_text, lemma_contains_end, lemma_contains_left, lemma_contains_right, push_char};

verus! {

/// The character sheet and its cursor (one-based column and row).
pub struct CharView {
    pub char_sheet: Vec<Vec<char>>,
    pub cur_x: u16,
    pub cur_y: u16,
    pub pen_char: char,
}

/// Where the sheet cursor goes on `key`: one step, kept within the width of the first row
/// and the number of rows, each taken as a `u16`.
pub open spec fn sheet_target(sheet: Seq<Seq<char>>, x: u16, y: u16, key: Key) -> (int, int) {
    let (x1, y1) = step_cursor(x as int, y as int, key);
    (clamp(x1, (sheet[0].len() as u16) as int), clamp(y1, (sheet.len() as u16) as int))
}

/// The sheet has a character under the one-based position `(x, y)`.
pub open spec fn sheet_has_cell(sheet: Seq<Seq<char>>, x: int, y: int) -> bool {
    1 <= y <= sheet.len() && 1 <= x <= sheet[y - 1].len()
}

/// The characters of `row` from column `j` on, each after a move to its place: column
/// `ax + 2j`, row `y`.
pub open spec fn sheet_row_text(row: Seq<char>, j: int, ax: u16, y: int) -> Seq<char>
    decreases row.len() - j,
{
    if j < 0 || j >= row.len() {
        seq![]
    } else {
        goto_seq((ax + 2 * j) as u16, y as u16) + seq![row[j]] + sheet_row_text(row, j + 1, ax, y)
    }
}

/// The rows of the sheet from row `i` on, row `i` drawn on screen row `ay + 2i`.
pub open spec fn sheet_rows_text(sheet: Seq<Seq<char>>, i: int, ax: u16, ay: u16) -> Seq<char>
    decreases sheet.len() - i,
{
    if i < 0 || i >= sheet.len() {
        seq![]
    } else {
        sheet_row_text(sheet[i], 0, ax, ay + 2 * i) + sheet_rows_text(sheet, i + 1, ax, ay)
    }
}

/// The box drawn round the sheet cursor `(cx, cy)`.
pub open spec fn sheet_frame(ax: u16, ay: u16, cx: u16, cy: u16) -> Seq<char> {
    let l = ax + (cx - 1) * 2 - 1;
    let t = ay + (cy - 1) * 2 - 1;
    goto_seq(l as u16, t as u16) + seq!['╭', '─', '╮'] + goto_seq(l as u16, (t + 1) as u16) + seq![
        '│',
    ] + goto_seq((l + 2) as u16, (t + 1) as u16) + seq!['│'] + goto_seq(l as u16, (t + 2) as u16)
        + seq!['╰', '─', '╯']
}

/// The screen text of the sheet at `(ax, ay)` with its cursor box.
pub open spec fn sheet_text(sheet: Seq<Seq<char>>, ax: u16, ay: u16, cx: u16, cy: u16) -> Seq<char> {
    fg_reset_seq() + bg_reset_seq() + sheet_rows_text(sheet, 0, ax, ay) + sheet_frame(ax, ay, cx, cy)
}

/// Row `i` of the sheet can be drawn at `(ax, ay)`: its screen positions fit a `u16` and
/// none of them is `(0, 0)`.
pub open spec fn sheet_row_fits(sheet: Seq<Seq<char>>, i: int, ax: u16, ay: u16) -> bool {
    &&& 2 * sheet[i].len() <= u16::MAX
    &&& sheet[i].len() > 0 ==> {
        &&& ay + 2 * i <= u16::MAX
        &&& ax + 2 * (sheet[i].len() - 1) <= u16::MAX
        &&& !(ax == 0 && ay + 2 * i == 0)
    }
}

impl CharView {
    pub open spec fn sheet(&self) -> Seq<Seq<char>> {
        rows_view(self.char_sheet@)
    }

    /// The sheet read from `char_sheet_txt`, cursor on the first character, pen a space.
    pub fn new(char_sheet_txt: String) -> (v: CharView)
        ensures
            v.sheet() == char_sheet_rows(char_sheet_txt@),
            v.cur_x == 1,
            v.cur_y == 1,
            v.pen_char == ' ',
    {
        let char_sheet = make_char_sheet(char_sheet_txt);
        CharView { char_sheet, cur_x: 1, cur_y: 1, pen_char: ' ' }
    }

    /// `key` can be handled: the sheet has rows, the cursor can step, and a character lies
    /// where it lands.
    pub open spec fn can_handle(&self, key: Key) -> bool {
        &&& self.sheet().len() > 0
        &&& can_step(self.cur_x, self.cur_y, key)
        &&& sheet_has_cell(
            self.sheet(),
            sheet_target(self.sheet(), self.cur_x, self.cur_y, key).0,
            sheet_target(self.sheet(), self.cur_x, self.cur_y, key).1,
        )
    }

    /// Tests `can_handle`.
    pub fn can_handle_exec(&self, key: Key) -> (res: bool)
        ensures
            res == self.can_handle(key),
    {
        if self.char_sheet.len() == 0 || !can_step_exec(self.cur_x, self.cur_y, key) {
            return false;
        }
        assert(self.char_sheet@[0]@ == self.sheet()[0]);
        let (x1, y1) = step_cursor_exec(self.cur_x, self.cur_y, key);
        let x = clamp_exec(x1, self.char_sheet[0].len() as u16);
        let y = clamp_exec(y1, self.char_sheet.len() as u16);
        if y < 1 || y as usize > self.char_sheet.len() {
            return false;
        }
        assert(self.char_sheet@[y - 1]@ == self.sheet()[y - 1]);
        x >= 1 && x as usize <= self.char_sheet[y as usize - 1].len()
    }

    /// Tests `can_draw`.
    pub fn can_draw_exec(&self, ax: u16, ay: u16) -> (res: bool)
        ensures
            res == self.can_draw(ax, ay),
    {
        let ghost sheet = self.sheet();
        let n = self.char_sheet.len();
        if n > 32767 {
            return false;
        }
        let mut i: usize = 0;
        while i < n
            invariant
                n == self.char_sheet.len(),
                sheet == self.sheet(),
                n <= 32767,
                i <= n,
                forall|k: int| 0 <= k < i ==> sheet_row_fits(sheet, k, ax, ay),
            decreases n - i,
        {
            let len = self.char_sheet[i].len();
            assert(self.char_sheet@[i as int]@ == sheet[i as int]);
            let ok = len <= 32767 && (len == 0 || (ay as usize + 2 * i <= 65535 && ax as usize + 2
                * (len - 1) <= 65535 && !(ax == 0 && ay as usize + 2 * i == 0)));
            if !ok {
                assert(!sheet_row_fits(sheet, i as int, ax, ay));
                return false;
            }
            i = i + 1;
        }
        let cx = self.cur_x as u32;
        let cy = self.cur_y as u32;
        let a = ax as u32;
        let b = ay as u32;
        cx >= 1 && cy >= 1 && a + (cx - 1) * 2 >= 1 && a + (cx - 1) * 2 + 1 <= 65535 && b + (cy - 1)
            * 2 >= 1 && b + (cy - 1) * 2 + 1 <= 65535 && !(a + (cx - 1) * 2 == 1 && b + (cy - 1) * 2
            == 1)
    }

    /// Arrow keys move the cursor within the sheet; the character under it becomes the pen.
    pub fn handle_event(&mut self, key: Key)
        requires
            old(self).can_handle(key),
        ensures
            final(self).char_sheet@ == old(self).char_sheet@,
            final(self).cur_x as int == sheet_target(
                old(self).sheet(),
                old(self).cur_x,
                old(self).cur_y,
                key,
            ).0,
            final(self).cur_y as int == sheet_target(
                old(self).sheet(),
                old(self).cur_x,
                old(self).cur_y,
                key,
            ).1,
            sheet_has_cell(old(self).sheet(), final(self).cur_x as int, final(self).cur_y as int),
            final(self).pen_char == old(self).sheet()[final(self).cur_y - 1][final(self).cur_x - 1],
    {
        let (x, y) = step_cursor_exec(self.cur_x, self.cur_y, key);
        self.cur_x = x;
        self.cur_y = y;
        if self.cur_x < 1 {
            self.cur_x = 1;
        }
        if self.cur_y < 1 {
            self.cur_y = 1;
        }
        assert(self.char_sheet@[0]@ == self.sheet()[0]);
        if self.cur_x > self.char_sheet[0].len() as u16 {
            self.cur_x = self.char_sheet[0].len() as u16;
        }
        if self.cur_y > self.char_sheet.len() as u16 {
            self.cur_y = self.char_sheet.len() as u16;
        }
        assert(self.char_sheet@[self.cur_y - 1]@ == self.sheet()[self.cur_y - 1]);
        self.pen_char = self.char_sheet[self.cur_y as usize - 1][self.cur_x as usize - 1];
    }

    /// The sheet can be drawn at `(ax, ay)`: every screen position and step fits a `u16`,
    /// and the cursor box does not start at `(0, 0)`.
    pub open spec fn can_draw(&self, ax: u16, ay: u16) -> bool {
        let cx = self.cur_x as int;
        let cy = self.cur_y as int;
        &&& 2 * self.sheet().len() <= u16::MAX
        &&& forall|i: int| 0 <= i < self.sheet().len() ==> sheet_row_fits(self.sheet(), i, ax, ay)
        &&& cx >= 1 && cy >= 1
        &&& ax + (cx - 1) * 2 >= 1 && ax + (cx - 1) * 2 + 1 <= u16::MAX
        &&& ay + (cy - 1) * 2 >= 1 && ay + (cy - 1) * 2 + 1 <= u16::MAX
        &&& !(ax + (cx - 1) * 2 == 1 && ay + (cy - 1) * 2 == 1)
    }

    /// The sheet drawn at column `ax`, row `ay`, every character two columns and two rows
    /// apart, with a box round the character under the cursor.
    pub fn draw(&self, ax: u16, ay: u16) -> (chsheet_render: String)
        requires
            self.can_draw(ax, ay),
        ensures
            chsheet_render@ == sheet_text(self.sheet(), ax, ay, self.cur_x, self.cur_y),
    {
        let ghost sheet = self.sheet();
        let mut x: u16 = 0;
        let mut y: u16 = 0;
        let mut chsheet_render = fg_reset_code();
        let reset_bg = bg_reset_code();
        chsheet_render.append(reset_bg.as_str());
        let ghost head = chsheet_render@;
        let mut i: usize = 0;
        while i < self.char_sheet.len()
            invariant
                sheet == self.sheet(),
                self.can_draw(ax, ay),
                i <= sheet.len(),
                y as int == 2 * i,
                x == 0,
                chsheet_render@ + sheet_rows_text(sheet, i as int, ax, ay) == head
                    + sheet_rows_text(sheet, 0, ax, ay),
            decreases self.char_sheet.len() - i,
        {
            let line = &self.char_sheet[i];
            assert(line@ == sheet[i as int]);
            assert(sheet_row_fits(sheet, i as int, ax, ay));
            let ghost row_start = chsheet_render@;
            let mut j: usize = 0;
            while j < line.len()
                invariant
                    line@ == sheet[i as int],
                    sheet_row_fits(sheet, i as int, ax, ay),
                    j <= line.len(),
                    x as int == 2 * j,
                    y as int == 2 * i,
                    chsheet_render@ + sheet_row_text(line@, j as int, ax, ay + 2 * i) == row_start
                        + sheet_row_text(line@, 0, ax, ay + 2 * i),
                decreases line.len() - j,
            {
                let ch = line[j];
                let ghost before = chsheet_render@;
                let g = goto_code(ax + x, ay + y);
                chsheet_render.append(g.as_str());
                push_char(&mut chsheet_render, ch);
                assert(chsheet_render@ + sheet_row_text(line@, j + 1, ax, ay + 2 * i) =~= before
                    + sheet_row_text(line@, j as int, ax, ay + 2 * i));
                x = x + 2;
                j = j + 1;
            }
            assert(chsheet_render@ + sheet_rows_text(sheet, i + 1, ax, ay) =~= row_start
                + sheet_rows_text(sheet, i as int, ax, ay));
            y = y + 2;
            x = 0;
            i = i + 1;
        }
        assert(chsheet_render@ =~= head + sheet_rows_text(sheet, 0, ax, ay));
        let ghost body = chsheet_render@;
        let l: u16 = ax + (self.cur_x - 1) * 2 - 1;
        let t: u16 = ay + (self.cur_y - 1) * 2 - 1;
        let g1 = goto_code(l, t);
        let g2 = goto_code(ax + (self.cur_x - 1) * 2 - 1, ay + (self.cur_y - 1) * 2);
        let g3 = goto_code(ax + (self.cur_x - 1) * 2 + 1, ay + (self.cur_y - 1) * 2);
        let g4 = goto_code(ax + (self.cur_x - 1) * 2 - 1, ay + (self.cur_y - 1) * 2 + 1);
        chsheet_render.append(g1.as_str());
        push_char(&mut chsheet_render, '╭');
        push_char(&mut chsheet_render, '─');
        push_char(&mut chsheet_render, '╮');
        chsheet_render.append(g2.as_str());
        push_char(&mut chsheet_render, '│');
        chsheet_render.append(g3.as_str());
        push_char(&mut chsheet_render, '│');
        chsheet_render.append(g4.as_str());
        push_char(&mut chsheet_render, '╰');
        push_char(&mut chsheet_render, '─');
        push_char(&mut chsheet_render, '╯');
        assert(chsheet_render@ =~= body + sheet_frame(ax, ay, self.cur_x, self.cur_y));
        chsheet_render
    }
}


/// The arrow keys on the character sheet, from a cursor inside the first row's width and
/// the number of rows (each taken as a `u16`): each moves the cursor one step in its
/// direction and stops at the edges; any other key leaves the cursor where it is.
pub proof fn law_sheet_arrows(sheet: Seq<Seq<char>>, x: u16, y: u16, key: Key)
    requires
        sheet.len() > 0,
        1 <= x <= (sheet[0].len() as u16),
        1 <= y <= (sheet.len() as u16),
    ensures
        ({
            let w = (sheet[0].len() as u16) as int;
            let h = (sheet.len() as u16) as int;
            let t = sheet_target(sheet, x, y, key);
            &&& key == Key::Left ==> t == (if x > 1 { x - 1 } else { 1int }, y as int)
            &&& key == Key::Right ==> t == (if x < w { x + 1 } else { w }, y as int)
            &&& key == Key::Up ==> t == (x as int, if y > 1 { y - 1 } else { 1int })
            &&& key == Key::Down ==> t == (x as int, if y < h { y + 1 } else { h })
            &&& !(key == Key::Left || key == Key::Right || key == Key::Up || key == Key::Down)
                ==> t == (x as int, y as int)
        }),
{
}

/// Row `row` drawn from column `j0` on shows each of its characters `j` from there at
/// column `ax + 2j`, row `y`.
proof fn lemma_row_shows(row: Seq<char>, j0: int, ax: u16, y: int, j: int)
    requires
        0 <= j0 <= j < row.len(),
    ensures
        contains_text(
            sheet_row_text(row, j0, ax, y),
            goto_seq((ax + 2 * j) as u16, y as u16) + seq![row[j]],
        ),
    decreases j - j0,
{
    let t = goto_seq((ax + 2 * j) as u16, y as u16) + seq![row[j]];
    let head = goto_seq((ax + 2 * j0) as u16, y as u16) + seq![row[j0]];
    let rest = sheet_row_text(row, j0 + 1, ax, y);
    assert(sheet_row_text(row, j0, ax, y) == head + rest);
    if j0 == j {
        lemma_contains_end(seq![], t);
        assert(seq![] + t =~= t);
        lemma_contains_left(t, rest, t);
    } else {
        lemma_row_shows(row, j0 + 1, ax, y, j);
        lemma_contains_right(head, rest, t);
    }
}

/// The rows from `i0` on show each character of each of them in its place.
proof fn lemma_rows_show(sheet: Seq<Seq<char>>, i0: int, ax: u16, ay: u16, i: int, j: int)
    requires
        0 <= i0 <= i < sheet.len(),
        0 <= j < sheet[i].len(),
    ensures
        contains_text(
            sheet_rows_text(sheet, i0, ax, ay),
            goto_seq((ax + 2 * j) as u16, (ay + 2 * i) as u16) + seq![sheet[i][j]],
        ),
    decreases i - i0,
{
    let t = goto_seq((ax + 2 * j) as u16, (ay + 2 * i) as u16) + seq![sheet[i][j]];
    let head = sheet_row_text(sheet[i0], 0, ax, ay + 2 * i0);
    let rest = sheet_rows_text(sheet, i0 + 1, ax, ay);
    assert(sheet_rows_text(sheet, i0, ax, ay) == head + rest);
    if i0 == i {
        lemma_row_shows(sheet[i], 0, ax, ay + 2 * i, j);
        lemma_contains_left(head, rest, t);
    } else {
        lemma_rows_show(sheet, i0 + 1, ax, ay, i, j);
        lemma_contains_right(head, rest, t);
    }
}

/// The drawn sheet shows the character in row `i`, column `j` (counted from zero) two
/// columns and two rows apart from its neighbours: at column `ax + 2j`, row `ay + 2i`.
pub proof fn law_sheet_cell_place(
    sheet: Seq<Seq<char>>,
    ax: u16,
    ay: u16,
    cx: u16,
    cy: u16,
    i: int,
    j: int,
)
    requires
        0 <= i < sheet.len(),
        0 <= j < sheet[i].len(),
    ensures
        contains_text(
            sheet_text(sheet, ax, ay, cx, cy),
            goto_seq((ax + 2 * j) as u16, (ay + 2 * i) as u16) + seq![sheet[i][j]],
        ),
{
    let t = goto_seq((ax + 2 * j) as u16, (ay + 2 * i) as u16) + seq![sheet[i][j]];
    lemma_rows_show(sheet, 0, ax, ay, i, j);
    let front = fg_reset_seq() + bg_reset_seq();
    let rows = sheet_rows_text(sheet, 0, ax, ay);
    lemma_contains_right(front, rows, t);
    lemma_contains_left(front + rows, sheet_frame(ax, ay, cx, cy), t);
}

/// The drawn sheet starts by resetting both colours and ends with a box round the place
/// where the character under the cursor `(cx, cy)` is drawn (column `ax + 2(cx - 1)`, row
/// `ay + 2(cy - 1)`): its top one row above, its bottom one row below, and its sides one
/// column left and right of that place.
pub proof fn law_sheet_cursor_box(sheet: Seq<Seq<char>>, ax: u16, ay: u16, cx: u16, cy: u16)
    ensures
        ({
            let s = sheet_text(sheet, ax, ay, cx, cy);
            let px = ax + 2 * (cx - 1);
            let py = ay + 2 * (cy - 1);
            let start = fg_reset_seq() + bg_reset_seq();
            let frame = goto_seq((px - 1) as u16, (py - 1) as u16) + seq!['╭', '─', '╮'] + goto_seq(
                (px - 1) as u16,
                py as u16,
            ) + seq!['│'] + goto_seq((px + 1) as u16, py as u16) + seq!['│'] + goto_seq(
                (px - 1) as u16,
                (py + 1) as u16,
            ) + seq!['╰', '─', '╯'];
            &&& start.len() + frame.len() <= s.len()
            &&& s.subrange(0, start.len() as int) == start
            &&& s.subrange(s.len() - frame.len(), s.len() as int) == frame
        }),
{
    let s = sheet_text(sheet, ax, ay, cx, cy);
    let start = fg_reset_seq() + bg_reset_seq();
    let rows = sheet_rows_text(sheet, 0, ax, ay);
    let frame = sheet_frame(ax, ay, cx, cy);
    assert(s == start + rows + frame);
    assert(s.subrange(0, start.len() as int) =~= start);
    assert(s.subrange(s.len() - frame.len(), s.len() as int) =~= frame);
}

} // verus!
