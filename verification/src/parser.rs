//! Reading pictures and character sheets from text, and writing pictures back as text.
use vstd::prelude::*;
use crate::format_char::FmtChar;
use crate::rgb::{RGB, rgb, same_colour};
use crate::terminal::{
    bg_reset_code, bg_reset_seq, bg_rgb_code, bg_rgb_seq, fg_reset_code, fg_reset_seq,
    fg_rgb_code, fg_rgb_seq,
};
use crate::text::{chars_of, decimal_u8_of, parse_decimal_u8, push_char};

verus! {

/// The escape character that opens a control sequence.
pub const ESC: char = '\u{1b}';

/// Default foreground of a picture cell.
pub open spec fn white() -> RGB {
    rgb(255, 255, 255)
}

/// Default background of a picture cell.
pub open spec fn black() -> RGB {
    rgb(0, 0, 0)
}

/// The first index at or after `pos` that holds `ch`, or the length of `data`.
pub open spec fn find_from(ch: char, data: Seq<char>, pos: int) -> int
    decreases data.len() - pos,
{
    if pos >= data.len() || data[pos] == ch {
        pos
    } else {
        find_from(ch, data, pos + 1)
    }
}

/// The characters from `pos` up to the next `ch` (or the end), and where the scan stopped.
/// Nothing is read when `pos` is at or beyond the last character.
pub open spec fn read_until_spec(ch: char, data: Seq<char>, pos: int) -> (Seq<char>, int) {
    if pos >= data.len() - 1 {
        (seq![], pos)
    } else {
        let e = find_from(ch, data, pos);
        (data.subrange(pos, e), e)
    }
}

pub(crate) proof fn lemma_find_from(ch: char, data: Seq<char>, pos: int)
    requires
        0 <= pos <= data.len(),
    ensures
        pos <= find_from(ch, data, pos) <= data.len(),
        find_from(ch, data, pos) < data.len() ==> data[find_from(ch, data, pos)] == ch,
        forall|i: int| pos <= i < find_from(ch, data, pos) ==> data[i] != ch,
    decreases data.len() - pos,
{
    if pos < data.len() && data[pos] != ch {
        lemma_find_from(ch, data, pos + 1);
    }
}

pub(crate) proof fn lemma_read_until_bounds(ch: char, data: Seq<char>, pos: int)
    requires
        0 <= pos,
    ensures
        pos <= read_until_spec(ch, data, pos).1,
        read_until_spec(ch, data, pos).1 <= if pos > data.len() { pos } else { data.len() as int },
{
    if pos < data.len() - 1 {
        lemma_find_from(ch, data, pos);
    }
}

/// Reads from `pos` up to the next `ch`; returns what was read and where it stopped.
pub fn read_until(ch: char, data: &Vec<char>, pos: usize) -> (res: (Vec<char>, usize))
    requires
        data.len() > 0,
    ensures
        res.0@ == read_until_spec(ch, data@, pos as int).0,
        res.1 as int == read_until_spec(ch, data@, pos as int).1,
{
    let mut pos = pos;
    if pos >= data.len() - 1 {
        return (Vec::new(), pos);
    }
    let start = pos;
    let mut out: Vec<char> = Vec::new();
    while pos < data.len() && data[pos] != ch
        invariant
            start <= pos <= data.len(),
            start < data.len() - 1,
            out@ == data@.subrange(start as int, pos as int),
            find_from(ch, data@, start as int) == find_from(ch, data@, pos as int),
        decreases data.len() - pos,
    {
        out.push(data[pos]);
        pos = pos + 1;
        assert(out@ =~= data@.subrange(start as int, pos as int));
    }
    (out, pos)
}

/// `s` cut at every element that `is_nl` holds of; the cut elements are dropped, so there
/// is one more row than there are cuts.
pub open spec fn split_lines<T>(s: Seq<T>, is_nl: spec_fn(T) -> bool) -> Seq<Seq<T>>
    decreases s.len(),
{
    if s.len() == 0 {
        seq![seq![]]
    } else {
        let rows = split_lines(s.drop_last(), is_nl);
        if is_nl(s.last()) {
            rows.push(seq![])
        } else {
            rows.update(rows.len() - 1, rows.last().push(s.last()))
        }
    }
}

pub proof fn lemma_split_lines_nonempty<T>(s: Seq<T>, is_nl: spec_fn(T) -> bool)
    ensures
        split_lines(s, is_nl).len() >= 1,
    decreases s.len(),
{
    if s.len() > 0 {
        lemma_split_lines_nonempty(s.drop_last(), is_nl);
    }
}

/// The newline test on characters.
pub open spec fn char_is_newline() -> spec_fn(char) -> bool {
    |c: char| c == '\n'
}

/// The newline test on picture cells.
pub open spec fn cell_is_newline() -> spec_fn(FmtChar) -> bool {
    |c: FmtChar| c.ch == '\n'
}

/// The rows held by a vector of rows.
pub open spec fn rows_view<T>(v: Seq<Vec<T>>) -> Seq<Seq<T>> {
    v.map_values(|r: Vec<T>| r@)
}

/// The rows without the empty rows at their end.
pub open spec fn trim_empty_rows<T>(rows: Seq<Seq<T>>) -> Seq<Seq<T>>
    decreases rows.len(),
{
    if rows.len() > 0 && rows.last().len() == 0 {
        trim_empty_rows(rows.drop_last())
    } else {
        rows
    }
}

/// The character sheet of a text: its lines, without empty lines at the end.
pub open spec fn char_sheet_rows(txt: Seq<char>) -> Seq<Seq<char>> {
    trim_empty_rows(split_lines(txt, char_is_newline()))
}

/// Cuts a sequence of characters into lines at `\n`.
fn split_char_lines(s: &Vec<char>) -> (rows: Vec<Vec<char>>)
    ensures
        rows_view(rows@) == split_lines(s@, char_is_newline()),
{
    let mut rows: Vec<Vec<char>> = Vec::new();
    let mut cur: Vec<char> = Vec::new();
    let mut i: usize = 0;
    while i < s.len()
        invariant
            i <= s.len(),
            rows_view(rows@).push(cur@) == split_lines(s@.take(i as int), char_is_newline()),
        decreases s.len() - i,
    {
        let c = s[i];
        let ghost before = rows_view(rows@).push(cur@);
        assert(s@.take(i + 1).drop_last() =~= s@.take(i as int));
        if c == '\n' {
            rows.push(cur);
            cur = Vec::new();
            assert(rows_view(rows@).push(cur@) =~= before.push(seq![]));
        } else {
            cur.push(c);
            assert(rows_view(rows@).push(cur@) =~= before.update(
                before.len() - 1,
                before.last().push(c),
            ));
        }
        i = i + 1;
    }
    assert(s@.take(i as int) =~= s@);
    rows.push(cur);
    rows
}

/// Lines of `txt` for the character sheet, without empty lines at the end.
pub fn make_char_sheet(txt: String) -> (ret: Vec<Vec<char>>)
    ensures
        rows_view(ret@) == char_sheet_rows(txt@),
{
    let arr_1d = chars_of(&txt);
    let mut ret = split_char_lines(&arr_1d);
    while ret.len() > 0 && ret[ret.len() - 1].len() == 0
        invariant
            trim_empty_rows(rows_view(ret@)) == char_sheet_rows(txt@),
        decreases ret.len(),
    {
        assert(rows_view(ret@).drop_last() =~= rows_view(ret@.drop_last()));
        ret.pop();
    }
    ret
}


/// The two characters `0m`.
pub open spec fn reset_short() -> Seq<char> {
    seq!['0', 'm']
}

/// What one control sequence does when its escape character stands at `pos`: where
/// reading resumes, and the foreground and background after it. `None` when the text ends
/// inside the sequence or a colour component is not a decimal byte.
///
/// Two characters after the escape come either `0m`, `39m` or `49m`, which restore white on
/// black, or five fields: a selector, a skipped field, and red, green and blue, the first
/// four ended by `;` and the last by `m`. Selector `38` sets the foreground, `48` the
/// background, and any other leaves both as they were.
pub open spec fn escape_step(data: Seq<char>, pos: int, fg: RGB, bg: RGB) -> Option<(int, RGB, RGB)> {
    let p = pos + 2;
    if p + 2 > data.len() {
        None
    } else if data.subrange(p, p + 2) == reset_short() {
        Some((p + 2, white(), black()))
    } else if p + 3 > data.len() {
        None
    } else if data.subrange(p, p + 3) == seq!['3', '9', 'm'] || data.subrange(p, p + 3) == seq![
        '4',
        '9',
        'm',
    ] {
        Some((p + 3, white(), black()))
    } else {
        let (kind, p1) = read_until_spec(';', data, p);
        let p2 = read_until_spec(';', data, p1 + 1).1;
        let (rv, p3) = read_until_spec(';', data, p2 + 1);
        let (gv, p4) = read_until_spec(';', data, p3 + 1);
        let (bv, p5) = read_until_spec('m', data, p4 + 1);
        match (decimal_u8_of(rv), decimal_u8_of(gv), decimal_u8_of(bv)) {
            (Some(r), Some(g), Some(b)) => {
                if kind == seq!['3', '8'] {
                    Some((p5 + 1, rgb(r, g, b), bg))
                } else if kind == seq!['4', '8'] {
                    Some((p5 + 1, fg, rgb(r, g, b)))
                } else {
                    Some((p5 + 1, fg, bg))
                }
            },
            _ => None,
        }
    }
}

pub proof fn lemma_escape_step_advances(data: Seq<char>, pos: int, fg: RGB, bg: RGB)
    requires
        0 <= pos < data.len(),
    ensures
        escape_step(data, pos, fg, bg) matches Some((e, f, b)) ==> pos < e <= data.len() + 6,
{
    let p = pos + 2;
    if p + 3 <= data.len() && !(data.subrange(p, p + 2) == reset_short()) {
        let (kind, p1) = read_until_spec(';', data, p);
        lemma_read_until_bounds(';', data, p);
        let p2 = read_until_spec(';', data, p1 + 1).1;
        lemma_read_until_bounds(';', data, p1 + 1);
        let (rv, p3) = read_until_spec(';', data, p2 + 1);
        lemma_read_until_bounds(';', data, p2 + 1);
        let (gv, p4) = read_until_spec(';', data, p3 + 1);
        lemma_read_until_bounds(';', data, p3 + 1);
        lemma_read_until_bounds('m', data, p4 + 1);
    }
}

/// The cells of a picture text from `pos` on, with `fg` and `bg` in force there; `None`
/// when a control sequence in it cannot be read. Every character that does not belong to
/// a control sequence becomes a cell in the colours in force.
pub open spec fn cells_from(data: Seq<char>, pos: int, fg: RGB, bg: RGB) -> Option<Seq<FmtChar>>
    decreases if pos < data.len() { data.len() - pos } else { 0 },
{
    if pos < 0 || pos >= data.len() {
        Some(seq![])
    } else if data[pos] == ESC {
        match escape_step(data, pos, fg, bg) {
            Some((e, f, b)) => if e > pos {
                cells_from(data, e, f, b)
            } else {
                None
            },
            None => None,
        }
    } else {
        match cells_from(data, pos + 1, fg, bg) {
            Some(rest) => Some(seq![FmtChar { ch: data[pos], fg, bg }] + rest),
            None => None,
        }
    }
}

/// A picture text in which every control sequence can be read.
pub open spec fn is_picture_text(data: Seq<char>) -> bool {
    cells_from(data, 0, white(), black()) is Some
}

/// The cells of a picture text, starting white on black.
pub open spec fn picture_cells(data: Seq<char>) -> Seq<FmtChar> {
    cells_from(data, 0, white(), black()).unwrap()
}

/// The rows without the last one when that one is empty.
pub open spec fn drop_empty_last<T>(rows: Seq<Seq<T>>) -> Seq<Seq<T>> {
    if rows.len() > 0 && rows.last().len() == 0 {
        rows.drop_last()
    } else {
        rows
    }
}

/// The rows of a picture text: its cells cut at newline cells, without a last empty row.
pub open spec fn picture_rows(data: Seq<char>) -> Seq<Seq<FmtChar>> {
    drop_empty_last(split_lines(picture_cells(data), cell_is_newline()))
}

/// Reads the control sequence whose escape character stands at `pos`.
fn read_escape(data: &Vec<char>, pos: usize, fg: RGB, bg: RGB) -> (res: Option<(usize, RGB, RGB)>)
    requires
        pos < data.len(),
        data.len() + 8 <= usize::MAX,
    ensures
        match res {
            Some((e, f, b)) => escape_step(data@, pos as int, fg, bg) == Some((e as int, f, b)),
            None => escape_step(data@, pos as int, fg, bg) is None,
        },
{
    let pos = pos + 2;
    if pos + 2 > data.len() {
        return None;
    }
    if data[pos] == '0' && data[pos + 1] == 'm' {
        assert(data@.subrange(pos as int, pos + 2) =~= reset_short());
        return Some((pos + 2, RGB::new(255, 255, 255), RGB::new(0, 0, 0)));
    }
    assert(!(data@.subrange(pos as int, pos + 2) =~= reset_short()));
    if pos + 3 > data.len() {
        return None;
    }
    assert(!(data@.subrange(pos as int, pos + 2) =~= reset_short()));
    if (data[pos] == '3' || data[pos] == '4') && data[pos + 1] == '9' && data[pos + 2] == 'm' {
        assert(data@.subrange(pos as int, pos + 3) =~= seq!['3', '9', 'm'] || data@.subrange(
            pos as int,
            pos + 3,
        ) =~= seq!['4', '9', 'm']);
        return Some((pos + 3, RGB::new(255, 255, 255), RGB::new(0, 0, 0)));
    }
    assert(!(data@.subrange(pos as int, pos + 3) =~= seq!['3', '9', 'm']));
    assert(!(data@.subrange(pos as int, pos + 3) =~= seq!['4', '9', 'm']));
    proof {
        lemma_read_until_bounds(';', data@, pos as int);
    }
    let (first_num, npos) = read_until(';', data, pos);
    let pos = npos;
    proof {
        lemma_read_until_bounds(';', data@, pos + 1);
    }
    let (_second_num, npos) = read_until(';', data, pos + 1);
    let pos = npos;
    proof {
        lemma_read_until_bounds(';', data@, pos + 1);
    }
    let (rv, npos) = read_until(';', data, pos + 1);
    let pos = npos;
    proof {
        lemma_read_until_bounds(';', data@, pos + 1);
    }
    let (gv, npos) = read_until(';', data, pos + 1);
    let pos = npos;
    proof {
        lemma_read_until_bounds('m', data@, pos + 1);
    }
    let (bv, npos) = read_until('m', data, pos + 1);
    let pos = npos;
    let r = match parse_decimal_u8(&rv) {
        Some(v) => v,
        None => {
            return None;
        },
    };
    let g = match parse_decimal_u8(&gv) {
        Some(v) => v,
        None => {
            return None;
        },
    };
    let b = match parse_decimal_u8(&bv) {
        Some(v) => v,
        None => {
            return None;
        },
    };
    let pos = pos + 1;
    if first_num.len() == 2 && first_num[0] == '3' && first_num[1] == '8' {
        assert(first_num@ =~= seq!['3', '8']);
        Some((pos, RGB::new(r, g, b), bg))
    } else if first_num.len() == 2 && first_num[0] == '4' && first_num[1] == '8' {
        assert(first_num@ =~= seq!['4', '8']);
        Some((pos, fg, RGB::new(r, g, b)))
    } else {
        assert(first_num@ != seq!['3', '8']);
        assert(first_num@ != seq!['4', '8']);
        Some((pos, fg, bg))
    }
}


/// Cuts picture cells into rows at newline cells.
fn split_cell_lines(s: &Vec<FmtChar>) -> (rows: Vec<Vec<FmtChar>>)
    ensures
        rows_view(rows@) == split_lines(s@, cell_is_newline()),
{
    let mut rows: Vec<Vec<FmtChar>> = Vec::new();
    let mut cur: Vec<FmtChar> = Vec::new();
    let mut i: usize = 0;
    while i < s.len()
        invariant
            i <= s.len(),
            rows_view(rows@).push(cur@) == split_lines(s@.take(i as int), cell_is_newline()),
        decreases s.len() - i,
    {
        let c = s[i];
        let ghost before = rows_view(rows@).push(cur@);
        assert(s@.take(i + 1).drop_last() =~= s@.take(i as int));
        if c.ch == '\n' {
            rows.push(cur);
            cur = Vec::new();
            assert(rows_view(rows@).push(cur@) =~= before.push(seq![]));
        } else {
            cur.push(c);
            assert(rows_view(rows@).push(cur@) =~= before.update(
                before.len() - 1,
                before.last().push(c),
            ));
        }
        i = i + 1;
    }
    assert(s@.take(i as int) =~= s@);
    rows.push(cur);
    rows
}

/// A cell with the given character and colours.
fn new_cell(ch: char, fg: RGB, bg: RGB) -> (c: FmtChar)
    ensures
        c == (FmtChar { ch, fg, bg }),
{
    FmtChar { ch: ch, fg: fg, bg: bg }
}

/// The cells of a picture text, or `None` when one of its control sequences cannot be
/// read.
pub fn picture_cells_exec(data: &Vec<char>) -> (res: Option<Vec<FmtChar>>)
    requires
        data.len() + 8 <= usize::MAX,
    ensures
        match res {
            Some(v) => is_picture_text(data@) && v@ == picture_cells(data@),
            None => !is_picture_text(data@),
        },
{
    let mut out: Vec<FmtChar> = Vec::new();
    let mut pos: usize = 0;
    let mut bg = RGB::new(0, 0, 0);
    let mut fg = RGB::new(255, 255, 255);
    while pos < data.len()
        invariant
            pos <= data.len() + 6,
            data.len() + 8 <= usize::MAX,
            cells_from(data@, 0, white(), black()) == match cells_from(data@, pos as int, fg, bg) {
                Some(r) => Some(out@ + r),
                None => None,
            },
        decreases if pos < data.len() { data.len() - pos } else { 0 },
    {
        if data[pos] == ESC {
            proof {
                lemma_escape_step_advances(data@, pos as int, fg, bg);
            }
            match read_escape(data, pos, fg, bg) {
                Some((npos, nfg, nbg)) => {
                    pos = npos;
                    fg = nfg;
                    bg = nbg;
                },
                None => {
                    return None;
                },
            }
        } else {
            let cell = new_cell(data[pos], fg, bg);
            let ghost old_out = out@;
            let ghost next = cells_from(data@, pos + 1, fg, bg);
            out.push(cell);
            assert(out@ =~= old_out + seq![cell]);
            proof {
                if let Some(rest) = next {
                    assert((old_out + seq![cell]) + rest =~= old_out + (seq![cell] + rest));
                }
            }
            pos = pos + 1;
        }
    }
    assert(out@ + Seq::<FmtChar>::empty() =~= out@);
    Some(out)
}

/// Reads a picture text into rows of coloured cells.
///
/// The text may not end inside a control sequence, nor hold a colour component that is
/// not a decimal byte: reading such a text fails.
pub fn make_data(data: Vec<char>) -> (n: Vec<Vec<FmtChar>>)
    requires
        data.len() + 8 <= usize::MAX,
        is_picture_text(data@),
    ensures
        rows_view(n@) == picture_rows(data@),
{
    let out = match picture_cells_exec(&data) {
        Some(out) => out,
        None => {
            return Vec::new();
        },
    };
    let mut n = split_cell_lines(&out);
    proof {
        lemma_split_lines_nonempty(out@, cell_is_newline());
    }
    if n[n.len() - 1].len() == 0 {
        assert(rows_view(n@).drop_last() =~= rows_view(n@.drop_last()));
        n.pop();
    }
    return n;
}

/// The text written for the cells `row[j..]` when `fg` and `bg` were the colours written
/// last, and the colours written last after them. A colour is written before a cell only
/// when it differs from the one written last.
pub open spec fn row_text(row: Seq<FmtChar>, j: int, fg: RGB, bg: RGB) -> (Seq<char>, RGB, RGB)
    decreases row.len() - j,
{
    if j < 0 || j >= row.len() {
        (seq![], fg, bg)
    } else {
        let c = row[j];
        let new_fg = !same_colour(fg, c.fg);
        let new_bg = !same_colour(bg, c.bg);
        let f = if new_fg { fg_rgb_seq(c.fg.r, c.fg.g, c.fg.b) } else { seq![] };
        let b = if new_bg { bg_rgb_seq(c.bg.r, c.bg.g, c.bg.b) } else { seq![] };
        let rest = row_text(
            row,
            j + 1,
            if new_fg { c.fg } else { fg },
            if new_bg { c.bg } else { bg },
        );
        (f + b + seq![c.ch] + rest.0, rest.1, rest.2)
    }
}

/// What ends every row: both colours reset, then a carriage return and a line feed.
pub open spec fn row_end() -> Seq<char> {
    fg_reset_seq() + bg_reset_seq() + seq!['\r', '\n']
}

/// The text written for the rows `rows[i..]` when `fg` and `bg` were written last.
pub open spec fn rows_text(rows: Seq<Seq<FmtChar>>, i: int, fg: RGB, bg: RGB) -> Seq<char>
    decreases rows.len() - i,
{
    if i < 0 || i >= rows.len() {
        seq![]
    } else {
        let r = row_text(rows[i], 0, fg, bg);
        r.0 + row_end() + rows_text(rows, i + 1, r.1, r.2)
    }
}

/// The text of a picture, as the screen and the saved file show it. The colours count as
/// black on black before the first cell.
pub open spec fn buffer_text(rows: Seq<Seq<FmtChar>>) -> Seq<char> {
    rows_text(rows, 0, black(), black())
}

/// Writes the picture as text with colour control sequences.
pub fn construct_buffer(data: &Vec<Vec<FmtChar>>) -> (buffer: String)
    ensures
        buffer@ == buffer_text(rows_view(data@)),
{
    let ghost rows = rows_view(data@);
    let mut buffer = String::new();
    let mut last_fg = RGB::new(0, 0, 0);
    let mut last_bg = RGB::new(0, 0, 0);
    let mut i: usize = 0;
    while i < data.len()
        invariant
            i <= data.len(),
            rows == rows_view(data@),
            buffer@ + rows_text(rows, i as int, last_fg, last_bg) == buffer_text(rows),
        decreases data.len() - i,
    {
        let e = &data[i];
        assert(e@ == rows[i as int]);
        let ghost start = buffer@;
        let ghost f0 = last_fg;
        let ghost b0 = last_bg;
        let mut j: usize = 0;
        while j < e.len()
            invariant
                j <= e.len(),
                buffer@ + row_text(e@, j as int, last_fg, last_bg).0 == start + row_text(
                    e@,
                    0,
                    f0,
                    b0,
                ).0,
                row_text(e@, j as int, last_fg, last_bg).1 == row_text(e@, 0, f0, b0).1,
                row_text(e@, j as int, last_fg, last_bg).2 == row_text(e@, 0, f0, b0).2,
            decreases e.len() - j,
        {
            let ch = e[j];
            let ghost before = buffer@;
            let ghost rest = row_text(e@, j + 1, if !same_colour(last_fg, ch.fg) {
                ch.fg
            } else {
                last_fg
            }, if !same_colour(last_bg, ch.bg) {
                ch.bg
            } else {
                last_bg
            });
            let ghost f = if !same_colour(last_fg, ch.fg) {
                fg_rgb_seq(ch.fg.r, ch.fg.g, ch.fg.b)
            } else {
                seq![]
            };
            let ghost b = if !same_colour(last_bg, ch.bg) {
                bg_rgb_seq(ch.bg.r, ch.bg.g, ch.bg.b)
            } else {
                seq![]
            };
            assert(row_text(e@, j as int, last_fg, last_bg) == (
            f + b + seq![ch.ch] + rest.0,
            rest.1,
            rest.2,
            ));
            if last_fg != ch.fg {
                let code = fg_rgb_code(ch.fg.r, ch.fg.g, ch.fg.b);
                buffer.append(code.as_str());
                last_fg = ch.fg;
            }
            if last_bg != ch.bg {
                let code = bg_rgb_code(ch.bg.r, ch.bg.g, ch.bg.b);
                buffer.append(code.as_str());
                last_bg = ch.bg;
            }
            push_char(&mut buffer, ch.ch);
            assert(buffer@ =~= before + f + b + seq![ch.ch]);
            assert(buffer@ + rest.0 =~= before + (f + b + seq![ch.ch] + rest.0));
            j = j + 1;
        }
        let ghost r = row_text(e@, 0, f0, b0);
        assert(buffer@ =~= start + r.0);
        let reset_fg = fg_reset_code();
        buffer.append(reset_fg.as_str());
        let reset_bg = bg_reset_code();
        buffer.append(reset_bg.as_str());
        push_char(&mut buffer, '\r');
        push_char(&mut buffer, '\n');
        assert(buffer@ =~= start + r.0 + row_end());
        assert(rows_text(rows, i as int, f0, b0) == r.0 + row_end() + rows_text(
            rows,
            i + 1,
            r.1,
            r.2,
        ));
        assert(buffer@ + rows_text(rows, i + 1, last_fg, last_bg) =~= start + rows_text(
            rows,
            i as int,
            f0,
            b0,
        ));
        i = i + 1;
    }
    assert(buffer@ =~= buffer_text(rows));
    buffer
}


/// The rows joined again, `sep` between each two.
pub open spec fn join_lines<T>(rows: Seq<Seq<T>>, sep: T) -> Seq<T>
    decreases rows.len(),
{
    if rows.len() == 0 {
        seq![]
    } else if rows.len() == 1 {
        rows[0]
    } else {
        join_lines(rows.drop_last(), sep) + seq![sep] + rows.last()
    }
}

/// `s` without the newlines at its end.
pub open spec fn strip_trailing_newlines(s: Seq<char>) -> Seq<char>
    decreases s.len(),
{
    if s.len() > 0 && s.last() == '\n' {
        strip_trailing_newlines(s.drop_last())
    } else {
        s
    }
}

proof fn lemma_join_push_last<T>(rows: Seq<Seq<T>>, sep: T, x: T)
    requires
        rows.len() >= 1,
    ensures
        join_lines(rows.update(rows.len() - 1, rows.last().push(x)), sep) == join_lines(rows, sep).push(x),
{
    let r2 = rows.update(rows.len() - 1, rows.last().push(x));
    if rows.len() == 1 {
        assert(r2[0] == rows[0].push(x));
    } else {
        assert(r2.drop_last() =~= rows.drop_last());
        assert(join_lines(rows, sep).push(x) =~= join_lines(rows.drop_last(), sep) + seq![sep]
            + rows.last().push(x));
    }
}

/// Cutting a sequence at a separator and joining the pieces with it gives the sequence back.
proof fn lemma_join_split<T>(s: Seq<T>, sep: T, is_nl: spec_fn(T) -> bool)
    requires
        forall|x: T| #[trigger] is_nl(x) <==> x == sep,
    ensures
        join_lines(split_lines(s, is_nl), sep) == s,
    decreases s.len(),
{
    if s.len() > 0 {
        let rows = split_lines(s.drop_last(), is_nl);
        lemma_join_split(s.drop_last(), sep, is_nl);
        lemma_split_lines_nonempty(s.drop_last(), is_nl);
        if is_nl(s.last()) {
            assert(rows.push(seq![]).drop_last() =~= rows);
            assert(join_lines(rows.push(seq![]), sep) =~= s);
        } else {
            lemma_join_push_last(rows, sep, s.last());
            assert(s.drop_last().push(s.last()) =~= s);
        }
    }
}

/// No row of a cut sequence holds the separator.
proof fn lemma_split_rows_clean<T>(s: Seq<T>, is_nl: spec_fn(T) -> bool)
    ensures
        forall|i: int, j: int|
            0 <= i < split_lines(s, is_nl).len() && 0 <= j < split_lines(s, is_nl)[i].len()
                ==> !is_nl(#[trigger] split_lines(s, is_nl)[i][j]),
    decreases s.len(),
{
    if s.len() > 0 {
        lemma_split_rows_clean(s.drop_last(), is_nl);
        lemma_split_lines_nonempty(s.drop_last(), is_nl);
        let rows = split_lines(s.drop_last(), is_nl);
        let r2 = split_lines(s, is_nl);
        assert forall|i: int, j: int| 0 <= i < r2.len() && 0 <= j < r2[i].len() implies !is_nl(
            #[trigger] r2[i][j],
        ) by {
            if i < rows.len() - 1 {
                assert(r2[i] == rows[i]);
            } else if i == rows.len() - 1 && !is_nl(s.last()) {
                if j < rows[i].len() {
                    assert(r2[i][j] == rows[i][j]);
                }
            } else if i == rows.len() - 1 {
                assert(r2[i] == rows[i]);
            }
        }
    }
}

/// Dropping empty rows at the end of the lines of `s` and joining the rest gives `s`
/// without its trailing newlines.
proof fn lemma_join_trimmed(s: Seq<char>)
    ensures
        join_lines(char_sheet_rows(s), '\n') == strip_trailing_newlines(s),
        char_sheet_rows(s).len() > 0 ==> char_sheet_rows(s).last().len() > 0,
    decreases s.len(),
{
    let rows = split_lines(s, char_is_newline());
    lemma_split_lines_nonempty(s, char_is_newline());
    if s.len() == 0 {
        assert(rows =~= seq![Seq::<char>::empty()]);
        assert(rows.drop_last() =~= Seq::<Seq<char>>::empty());
        assert(trim_empty_rows(rows.drop_last()) =~= Seq::<Seq<char>>::empty());
    } else if s.last() == '\n' {
        let prev = split_lines(s.drop_last(), char_is_newline());
        assert(rows.drop_last() =~= prev);
        lemma_join_trimmed(s.drop_last());
    } else {
        let prev = split_lines(s.drop_last(), char_is_newline());
        lemma_split_lines_nonempty(s.drop_last(), char_is_newline());
        assert(rows.last().len() > 0);
        assert(trim_empty_rows(rows) == rows);
        assert(forall|x: char| #[trigger] char_is_newline()(x) <==> x == '\n');
        lemma_join_split(s, '\n', char_is_newline());
    }
}

/// The character sheet of a text: no row holds a newline, its last row (if any) is not
/// empty, and its rows joined with newlines give the text without its trailing newlines.
pub proof fn law_char_sheet_lines(txt: Seq<char>)
    ensures
        forall|i: int, j: int|
            0 <= i < char_sheet_rows(txt).len() && 0 <= j < char_sheet_rows(txt)[i].len()
                ==> #[trigger] char_sheet_rows(txt)[i][j] != '\n',
        char_sheet_rows(txt).len() > 0 ==> char_sheet_rows(txt).last().len() > 0,
        join_lines(char_sheet_rows(txt), '\n') == strip_trailing_newlines(txt),
{
    lemma_join_trimmed(txt);
    lemma_split_rows_clean(txt, char_is_newline());
    lemma_trim_prefix(split_lines(txt, char_is_newline()));
    let rows = split_lines(txt, char_is_newline());
    let t = char_sheet_rows(txt);
    assert forall|i: int, j: int| 0 <= i < t.len() && 0 <= j < t[i].len() implies #[trigger] t[i][j]
        != '\n' by {
        assert(t[i] == rows[i]);
        assert(!char_is_newline()(rows[i][j]));
    }
}

proof fn lemma_trim_prefix<T>(rows: Seq<Seq<T>>)
    ensures
        trim_empty_rows(rows).len() <= rows.len(),
        forall|i: int| 0 <= i < trim_empty_rows(rows).len() ==> #[trigger] trim_empty_rows(rows)[i]
            == rows[i],
    decreases rows.len(),
{
    if rows.len() > 0 && rows.last().len() == 0 {
        lemma_trim_prefix(rows.drop_last());
    }
}


/// No cell of a picture's rows is a newline.
pub proof fn law_picture_rows_have_no_newlines(data: Seq<char>)
    ensures
        forall|i: int, j: int|
            0 <= i < picture_rows(data).len() && 0 <= j < picture_rows(data)[i].len()
                ==> #[trigger] picture_rows(data)[i][j].ch != '\n',
{
    let rows = split_lines(picture_cells(data), cell_is_newline());
    lemma_split_rows_clean(picture_cells(data), cell_is_newline());
    let p = picture_rows(data);
    assert forall|i: int, j: int| 0 <= i < p.len() && 0 <= j < p[i].len() implies #[trigger] p[i][j].ch
        != '\n' by {
        assert(p[i] == rows[i]);
        assert(!cell_is_newline()(rows[i][j]));
    }
}

/// A character as a cell, white on black.
pub open spec fn blank_cell(c: char) -> FmtChar {
    FmtChar { ch: c, fg: white(), bg: black() }
}

proof fn lemma_plain_cells_from(data: Seq<char>, pos: int)
    requires
        0 <= pos <= data.len(),
        forall|k: int| 0 <= k < data.len() ==> #[trigger] data[k] != ESC,
    ensures
        cells_from(data, pos, white(), black()) == Some(
            data.skip(pos).map_values(|c: char| blank_cell(c)),
        ),
    decreases data.len() - pos,
{
    if pos < data.len() {
        lemma_plain_cells_from(data, pos + 1);
        assert(data[pos] != ESC);
        assert(seq![blank_cell(data[pos])] + data.skip(pos + 1).map_values(|c: char| blank_cell(c))
            =~= data.skip(pos).map_values(|c: char| blank_cell(c)));
    } else {
        assert(data.skip(pos).map_values(|c: char| blank_cell(c)) =~= Seq::<FmtChar>::empty());
    }
}

/// A text without escape characters is a picture text, and each of its characters becomes
/// one cell, in order, white on black.
pub proof fn law_plain_text_cells(data: Seq<char>)
    requires
        forall|k: int| 0 <= k < data.len() ==> #[trigger] data[k] != ESC,
    ensures
        is_picture_text(data),
        picture_cells(data).len() == data.len(),
        forall|k: int| 0 <= k < data.len() ==> #[trigger] picture_cells(data)[k] == blank_cell(data[k]),
{
    lemma_plain_cells_from(data, 0);
    assert(data.skip(0) =~= data);
}

/// The rows' text from row `i` on ends with a row end, when there is such a row.
proof fn lemma_rows_text_ends(rows: Seq<Seq<FmtChar>>, i: int, fg: RGB, bg: RGB)
    requires
        0 <= i < rows.len(),
    ensures
        rows_text(rows, i, fg, bg).len() >= row_end().len(),
        rows_text(rows, i, fg, bg).subrange(
            rows_text(rows, i, fg, bg).len() - row_end().len(),
            rows_text(rows, i, fg, bg).len() as int,
        ) == row_end(),
    decreases rows.len() - i,
{
    let r = row_text(rows[i], 0, fg, bg);
    let rest = rows_text(rows, i + 1, r.1, r.2);
    let s = rows_text(rows, i, fg, bg);
    assert(s == r.0 + row_end() + rest);
    let n = row_end().len();
    if i + 1 < rows.len() {
        lemma_rows_text_ends(rows, i + 1, r.1, r.2);
        assert(s.subrange(s.len() - n, s.len() as int) =~= rest.subrange(
            rest.len() - n,
            rest.len() as int,
        ));
    } else {
        assert(rest == Seq::<char>::empty());
        assert(s.subrange(s.len() - n, s.len() as int) =~= row_end());
    }
}

/// How a saved or shown picture text begins and ends: every picture with a row ends with
/// both colours reset, a carriage return and a line feed; and its first cell, when the
/// first row has one, is written first, after the foreground and then the background
/// colour sequence, each only where that colour is not black (the colours count as black
/// before the first cell).
pub proof fn law_buffer_ends(rows: Seq<Seq<FmtChar>>)
    requires
        rows.len() > 0,
    ensures
        ({
            let s = buffer_text(rows);
            let end = fg_reset_seq() + bg_reset_seq() + seq!['\r', '\n'];
            let c = rows[0][0];
            let first = (if c.fg.r == 0 && c.fg.g == 0 && c.fg.b == 0 {
                seq![]
            } else {
                fg_rgb_seq(c.fg.r, c.fg.g, c.fg.b)
            }) + (if c.bg.r == 0 && c.bg.g == 0 && c.bg.b == 0 {
                seq![]
            } else {
                bg_rgb_seq(c.bg.r, c.bg.g, c.bg.b)
            }) + seq![c.ch];
            &&& end.len() <= s.len() && s.subrange(s.len() - end.len(), s.len() as int) == end
            &&& rows[0].len() > 0 ==> first.len() <= s.len() && s.subrange(0, first.len() as int)
                == first
        }),
{
    lemma_rows_text_ends(rows, 0, black(), black());
    if rows[0].len() > 0 {
        let s = buffer_text(rows);
        let c = rows[0][0];
        let r = row_text(rows[0], 0, black(), black());
        let rest = rows_text(rows, 1, r.1, r.2);
        assert(s == r.0 + row_end() + rest);
        let new_fg = !same_colour(black(), c.fg);
        let new_bg = !same_colour(black(), c.bg);
        let f = if new_fg { fg_rgb_seq(c.fg.r, c.fg.g, c.fg.b) } else { seq![] };
        let b = if new_bg { bg_rgb_seq(c.bg.r, c.bg.g, c.bg.b) } else { seq![] };
        let r1 = row_text(rows[0], 1, if new_fg { c.fg } else { black() }, if new_bg { c.bg } else { black() });
        assert(r.0 == f + b + seq![c.ch] + r1.0);
        let first = f + b + seq![c.ch];
        assert(s.subrange(0, first.len() as int) =~= first);
    }
}

} // verus!
