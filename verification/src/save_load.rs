//! Saving a picture and opening the saved text again.
use vstd::prelude::*;
use crate::format_char::FmtChar;
use crate::rgb::{RGB, rgb, same_colour};
use crate::editor::crlf_to_lf;
use crate::parser::{
    ESC, black, buffer_text, cell_is_newline, cells_from, escape_step, find_from,
    is_picture_text, lemma_find_from, lemma_read_until_bounds, lemma_split_lines_nonempty,
    picture_rows, read_until_spec, reset_short, row_text, rows_text,
    split_lines, white,
};
use crate::terminal::{bg_reset_seq, bg_rgb_seq, csi, fg_reset_seq, fg_rgb_seq, rgb_params};
use crate::text::{dec_value, decimal, decimal_u8_of, digit_char, is_dec_digit, unsigned_digits};

verus! {

proof fn lemma_find_from_shift(ch: char, data: Seq<char>, k: int, p: int)
    requires
        0 <= k <= p,
        k <= data.len(),
    ensures
        find_from(ch, data.skip(k), p - k) == find_from(ch, data, p) - k,
    decreases data.len() - p,
{
    let d = data.skip(k);
    assert(d.len() == data.len() - k);
    if p < data.len() {
        assert(d[p - k] == data[p]);
    }
    if p < data.len() && data[p] != ch {
        lemma_find_from_shift(ch, data, k, p + 1);
    }
}

proof fn lemma_read_until_shift(ch: char, data: Seq<char>, k: int, p: int)
    requires
        0 <= k <= p,
        k <= data.len(),
    ensures
        read_until_spec(ch, data.skip(k), p - k).0 == read_until_spec(ch, data, p).0,
        read_until_spec(ch, data.skip(k), p - k).1 == read_until_spec(ch, data, p).1 - k,
{
    assert(data.skip(k).len() == data.len() - k);
    if p < data.len() - 1 {
        lemma_find_from_shift(ch, data, k, p);
        lemma_find_from(ch, data, p);
        let e = find_from(ch, data, p);
        assert(data.skip(k).subrange(p - k, e - k) =~= data.subrange(p, e));
    }
}

proof fn lemma_escape_shift(data: Seq<char>, k: int, pos: int, fg: RGB, bg: RGB)
    requires
        0 <= k <= pos,
        k <= data.len(),
    ensures
        escape_step(data.skip(k), pos - k, fg, bg) == match escape_step(data, pos, fg, bg) {
            Some((e, f, b)) => Some((e - k, f, b)),
            None => None,
        },
{
    let d = data.skip(k);
    assert(d.len() == data.len() - k);
    let p = pos + 2;
    if p + 2 <= data.len() {
        assert(d.subrange(p - k, p - k + 2) =~= data.subrange(p, p + 2));
    }
    if p + 3 <= data.len() {
        assert(d.subrange(p - k, p - k + 3) =~= data.subrange(p, p + 3));
    }
    lemma_read_until_shift(';', data, k, p);
    lemma_read_until_bounds(';', data, p);
    let p1 = read_until_spec(';', data, p).1;
    lemma_read_until_shift(';', data, k, p1 + 1);
    lemma_read_until_bounds(';', data, p1 + 1);
    let p2 = read_until_spec(';', data, p1 + 1).1;
    lemma_read_until_shift(';', data, k, p2 + 1);
    lemma_read_until_bounds(';', data, p2 + 1);
    let p3 = read_until_spec(';', data, p2 + 1).1;
    lemma_read_until_shift(';', data, k, p3 + 1);
    lemma_read_until_bounds(';', data, p3 + 1);
    let p4 = read_until_spec(';', data, p3 + 1).1;
    lemma_read_until_shift('m', data, k, p4 + 1);
}

/// Reading from `pos` depends only on the text from `pos` on.
proof fn lemma_cells_shift(data: Seq<char>, k: int, pos: int, fg: RGB, bg: RGB)
    requires
        0 <= k <= pos,
        k <= data.len(),
    ensures
        cells_from(data.skip(k), pos - k, fg, bg) == cells_from(data, pos, fg, bg),
    decreases if pos < data.len() { data.len() - pos } else { 0 },
{
    let d = data.skip(k);
    if pos < data.len() {
        assert(d[pos - k] == data[pos]);
        if data[pos] == ESC {
            lemma_escape_shift(data, k, pos, fg, bg);
            match escape_step(data, pos, fg, bg) {
                Some((e, f, b)) => {
                    if e > pos {
                        lemma_cells_shift(data, k, e, f, b);
                    }
                },
                None => {},
            }
        } else {
            lemma_cells_shift(data, k, pos + 1, fg, bg);
        }
    }
}


/// The cells read before the rest of a text, followed by those of the rest.
pub open spec fn opt_prepend(s: Seq<FmtChar>, o: Option<Seq<FmtChar>>) -> Option<Seq<FmtChar>> {
    match o {
        Some(r) => Some(s + r),
        None => None,
    }
}

proof fn lemma_cells_after(x: Seq<char>, y: Seq<char>, fg: RGB, bg: RGB)
    ensures
        cells_from(x + y, x.len() as int, fg, bg) == cells_from(y, 0, fg, bg),
{
    lemma_cells_shift(x + y, x.len() as int, x.len() as int, fg, bg);
    assert((x + y).skip(x.len() as int) =~= y);
}

/// A character other than the escape character reads as one cell in the colours in force.
proof fn lemma_cells_plain(c: char, y: Seq<char>, fg: RGB, bg: RGB)
    requires
        c != ESC,
    ensures
        cells_from(seq![c] + y, 0, fg, bg) == opt_prepend(
            seq![FmtChar { ch: c, fg, bg }],
            cells_from(y, 0, fg, bg),
        ),
{
    lemma_cells_after(seq![c], y, fg, bg);
    assert((seq![c] + y)[0] == c);
}

proof fn lemma_decimal_digits(n: nat)
    ensures
        decimal(n).len() > 0,
        forall|i: int| 0 <= i < decimal(n).len() ==> is_dec_digit(#[trigger] decimal(n)[i]),
        dec_value(decimal(n)) == n,
    decreases n,
{
    if n < 10 {
        assert(digit_char(n) as int == n + '0' as int);
        assert(decimal(n).drop_last() =~= Seq::<char>::empty());
        assert(dec_value(Seq::<char>::empty()) == 0);
        assert(dec_value(decimal(n)) == dec_value(decimal(n).drop_last()) * 10 + (decimal(n).last() as int - '0' as int) as nat);
    } else {
        assert(digit_char(n % 10) as int == n % 10 + '0' as int);
        assert(n == (n / 10) * 10 + n % 10);
        let s0 = decimal(n / 10);
        assert(decimal(n) == s0.push(digit_char(n % 10)));
        assert(decimal(n).drop_last() =~= s0);
        assert(dec_value(decimal(n)) == dec_value(s0) * 10 + (digit_char(n % 10) as int - '0' as int) as nat);
        lemma_decimal_digits(n / 10);
        let s = decimal(n / 10);
        assert(s.push(digit_char(n % 10)).drop_last() =~= s);
        assert forall|i: int| 0 <= i < decimal(n).len() implies is_dec_digit(
            #[trigger] decimal(n)[i],
        ) by {
            if i < s.len() {
                assert(decimal(n)[i] == s[i]);
            }
        }
    }
}

/// A byte written in decimal reads back as that byte.
proof fn lemma_decimal_reads_back(v: u8)
    ensures
        decimal_u8_of(decimal(v as nat)) == Some(v),
        forall|i: int|
            0 <= i < decimal(v as nat).len() ==> #[trigger] decimal(v as nat)[i] != ';' && decimal(
                v as nat,
            )[i] != 'm' && decimal(v as nat)[i] != '\n' && decimal(v as nat)[i] != '\r',
{
    lemma_decimal_digits(v as nat);
    let d = decimal(v as nat);
    assert(d[0] != '+');
    assert(unsigned_digits(d) == d);
}

/// Reading up to `ch` from `k` when a field `w` without `ch` and then `ch` stand there.
proof fn lemma_read_field(ch: char, d: Seq<char>, k: int, w: Seq<char>, z: Seq<char>)
    requires
        0 <= k <= d.len(),
        d.skip(k) == w + seq![ch] + z,
        forall|i: int| 0 <= i < w.len() ==> #[trigger] w[i] != ch,
    ensures
        read_until_spec(ch, d, k) == (w, k + w.len()),
{
    let e = d.skip(k);
    lemma_read_until_shift(ch, d, k, k);
    if w.len() > 0 || z.len() > 0 {
        assert(e[w.len() as int] == ch);
        assert forall|i: int| 0 <= i < w.len() implies e[i] != ch by {
            assert(e[i] == w[i]);
        }
        lemma_find_from(ch, e, 0);
        let f = find_from(ch, e, 0);
        if f < w.len() {
            assert(e[f] == w[f]);
        }
        assert(f == w.len());
        assert(e.subrange(0, f) =~= w);
    } else {
        assert(w =~= Seq::<char>::empty());
    }
}

/// Where the five fields of a true-colour sequence are read, and what they hold.
#[verifier::rlimit(30)]
proof fn lemma_rgb_fields(kind: char, r: u8, g: u8, b: u8, y: Seq<char>)
    requires
        kind == '3' || kind == '4',
    ensures
        ({
            let code = csi(seq![kind, '8', ';', '2'] + rgb_params(r, g, b) + seq!['m']);
            let d = code + y;
            let a = decimal(r as nat).len() as int;
            let bb = decimal(g as nat).len() as int;
            let c = decimal(b as nat).len() as int;
            &&& code.len() == 10 + a + bb + c
            &&& d.subrange(2, 4) == seq![kind, '8']
            &&& d.subrange(2, 5) == seq![kind, '8', ';']
            &&& read_until_spec(';', d, 2) == (seq![kind, '8'], 4int)
            &&& read_until_spec(';', d, 5) == (seq!['2'], 6int)
            &&& read_until_spec(';', d, 7) == (decimal(r as nat), 7 + a)
            &&& read_until_spec(';', d, 8 + a) == (decimal(g as nat), 8 + a + bb)
            &&& read_until_spec('m', d, 9 + a + bb) == (decimal(b as nat), 9 + a + bb + c)
        }),
{
    let code = csi(seq![kind, '8', ';', '2'] + rgb_params(r, g, b) + seq!['m']);
    let dr = decimal(r as nat);
    let dg = decimal(g as nat);
    let db = decimal(b as nat);
    lemma_decimal_reads_back(r);
    lemma_decimal_reads_back(g);
    lemma_decimal_reads_back(b);
    let d = code + y;
    let a = dr.len() as int;
    let bb = dg.len() as int;
    let tail = db + seq!['m'] + y;
    let t2 = dg + seq![';'] + tail;
    let t1 = dr + seq![';'] + t2;
    assert(code =~= seq!['\u{1b}', '[', kind, '8', ';', '2', ';'] + dr + seq![';'] + dg + seq![';']
        + db + seq!['m']);
    assert(d =~= seq!['\u{1b}', '[', kind, '8', ';', '2', ';'] + t1);
    assert(d.subrange(2, 4) =~= seq![kind, '8']);
    assert(d.subrange(2, 5) =~= seq![kind, '8', ';']);
    assert(d.skip(2) =~= seq![kind, '8'] + seq![';'] + (seq!['2', ';'] + t1));
    assert(seq![kind, '8'][0] != ';' && seq![kind, '8'][1] != ';');
    lemma_read_field(';', d, 2, seq![kind, '8'], seq!['2', ';'] + t1);
    assert(d.skip(5) =~= seq!['2'] + seq![';'] + t1);
    assert(seq!['2'][0] != ';');
    lemma_read_field(';', d, 5, seq!['2'], t1);
    assert(d.skip(7) =~= t1);
    lemma_read_field(';', d, 7, dr, t2);
    assert(d.skip(8 + a) =~= t2);
    lemma_read_field(';', d, 8 + a, dg, tail);
    assert(d.skip(9 + a + bb) =~= tail);
    lemma_read_field('m', d, 9 + a + bb, db, y);
}

/// The sequence that sets a true colour, `kind` being `3` for the foreground (`38`) or `4`
/// for the background (`48`), read from the text.
#[verifier::spinoff_prover]
#[verifier::rlimit(60)]
proof fn lemma_rgb_escape(kind: char, r: u8, g: u8, b: u8, y: Seq<char>, fg: RGB, bg: RGB)
    requires
        kind == '3' || kind == '4',
    ensures
        ({
            let code = csi(seq![kind, '8', ';', '2'] + rgb_params(r, g, b) + seq!['m']);
            escape_step(code + y, 0, fg, bg) == Some((
                code.len() as int,
                if kind == '3' { rgb(r, g, b) } else { fg },
                if kind == '3' { bg } else { rgb(r, g, b) },
            ))
        }),
{
    lemma_rgb_fields(kind, r, g, b, y);
    lemma_decimal_reads_back(r);
    lemma_decimal_reads_back(g);
    lemma_decimal_reads_back(b);
    assert(seq![kind, '8'] != reset_short()) by {
        assert(seq![kind, '8'][0] != reset_short()[0]);
    }
    assert(seq![kind, '8', ';'] != seq!['3', '9', 'm']) by {
        assert(seq![kind, '8', ';'][1] != seq!['3', '9', 'm'][1]);
    }
    assert(seq![kind, '8', ';'] != seq!['4', '9', 'm']) by {
        assert(seq![kind, '8', ';'][1] != seq!['4', '9', 'm'][1]);
    }
    if kind == '4' {
        assert(seq![kind, '8'] =~= seq!['4', '8']);
        assert(seq!['4', '8'] != seq!['3', '8']) by {
            assert(seq!['4', '8'][0] != seq!['3', '8'][0]);
        }
    } else {
        assert(seq![kind, '8'] =~= seq!['3', '8']);
    }
}


proof fn lemma_cells_rgb_code(kind: char, r: u8, g: u8, b: u8, y: Seq<char>, fg: RGB, bg: RGB)
    requires
        kind == '3' || kind == '4',
    ensures
        ({
            let code = csi(seq![kind, '8', ';', '2'] + rgb_params(r, g, b) + seq!['m']);
            cells_from(code + y, 0, fg, bg) == cells_from(
                y,
                0,
                if kind == '3' { rgb(r, g, b) } else { fg },
                if kind == '3' { bg } else { rgb(r, g, b) },
            )
        }),
{
    let code = csi(seq![kind, '8', ';', '2'] + rgb_params(r, g, b) + seq!['m']);
    lemma_rgb_escape(kind, r, g, b, y, fg, bg);
    lemma_cells_after(code, y, if kind == '3' { rgb(r, g, b) } else { fg }, if kind == '3' {
        bg
    } else {
        rgb(r, g, b)
    });
    assert((code + y)[0] == '\u{1b}');
}

/// The two reset sequences and a line feed read as one newline cell, white on black.
proof fn lemma_cells_row_end(z: Seq<char>, fg: RGB, bg: RGB)
    ensures
        cells_from(row_end_lf() + z, 0, fg, bg) == opt_prepend(
            seq![newline_cell()],
            cells_from(z, 0, white(), black()),
        ),
{
    let t1 = bg_reset_seq() + (seq!['\n'] + z);
    let t0 = fg_reset_seq() + t1;
    assert(row_end_lf() + z =~= t0);
    assert(t0 =~= seq!['\u{1b}', '[', '3', '9', 'm'] + t1);
    assert(t0.subrange(2, 4) =~= seq!['3', '9']);
    assert(seq!['3', '9'] != reset_short()) by {
        assert(seq!['3', '9'][0] != reset_short()[0]);
    }
    assert(t0.subrange(2, 5) =~= seq!['3', '9', 'm']);
    assert(escape_step(t0, 0, fg, bg) == Some((5int, white(), black())));
    lemma_cells_after(seq!['\u{1b}', '[', '3', '9', 'm'], t1, white(), black());
    assert(t1 =~= seq!['\u{1b}', '[', '4', '9', 'm'] + (seq!['\n'] + z));
    assert(t1.subrange(2, 4) =~= seq!['4', '9']);
    assert(seq!['4', '9'] != reset_short()) by {
        assert(seq!['4', '9'][0] != reset_short()[0]);
    }
    assert(t1.subrange(2, 5) =~= seq!['4', '9', 'm']);
    assert(escape_step(t1, 0, white(), black()) == Some((5int, white(), black())));
    lemma_cells_after(seq!['\u{1b}', '[', '4', '9', 'm'], seq!['\n'] + z, white(), black());
    lemma_cells_plain('\n', z, white(), black());
}

/// The cell that a row's closing line feed reads as.
pub open spec fn newline_cell() -> FmtChar {
    FmtChar { ch: '\n', fg: white(), bg: black() }
}

/// What ends every row in the saved text: both colours reset, then a line feed.
pub open spec fn row_end_lf() -> Seq<char> {
    fg_reset_seq() + bg_reset_seq() + seq!['\n']
}

/// The saved text of the rows `rows[i..]` when `fg` and `bg` were written last.
pub open spec fn rows_text_lf(rows: Seq<Seq<FmtChar>>, i: int, fg: RGB, bg: RGB) -> Seq<char>
    decreases rows.len() - i,
{
    if i < 0 || i >= rows.len() {
        seq![]
    } else {
        let r = row_text(rows[i], 0, fg, bg);
        r.0 + row_end_lf() + rows_text_lf(rows, i + 1, r.1, r.2)
    }
}

/// A colour without the `default` mark.
pub open spec fn plain(c: RGB) -> RGB {
    rgb(c.r, c.g, c.b)
}

/// A cell whose character reading gives back: neither the escape character nor a
/// newline.
pub open spec fn plain_cell(c: FmtChar) -> bool {
    c.ch != ESC && c.ch != '\n'
}

/// The cell with neither colour marked default.
pub open spec fn unmarked(c: FmtChar) -> FmtChar {
    FmtChar { ch: c.ch, fg: plain(c.fg), bg: plain(c.bg) }
}

/// The row with no colour marked default.
pub open spec fn unmarked_row(r: Seq<FmtChar>) -> Seq<FmtChar> {
    r.map_values(|c: FmtChar| unmarked(c))
}

/// The rows with no colour marked default.
pub open spec fn unmarked_rows(rows: Seq<Seq<FmtChar>>) -> Seq<Seq<FmtChar>> {
    rows.map_values(|r: Seq<FmtChar>| unmarked_row(r))
}

/// Every cell of every row is plain.
pub open spec fn plain_rows(rows: Seq<Seq<FmtChar>>) -> bool {
    forall|i: int, j: int| 0 <= i < rows.len() && 0 <= j < rows[i].len() ==> plain_cell(
        #[trigger] rows[i][j],
    )
}

/// Reading has `df` as foreground where cell `j` of `row` is written after `lf`: the two
/// agree, or the cell's foreground differs from `lf` and is written anew.
pub open spec fn fg_ready(df: RGB, lf: RGB, row: Seq<FmtChar>, j: int) -> bool {
    j >= row.len() || df == plain(lf) || !same_colour(lf, row[j].fg)
}

/// As `fg_ready`, for the background.
pub open spec fn bg_ready(db: RGB, lb: RGB, row: Seq<FmtChar>, j: int) -> bool {
    j >= row.len() || db == plain(lb) || !same_colour(lb, row[j].bg)
}

/// Every row from `i` on starts in colours that reading gets right: reading starts each
/// row white on black, while writing carries the colours written last (black on black
/// before the first row).
pub open spec fn reads_back_from(rows: Seq<Seq<FmtChar>>, i: int, lf: RGB, lb: RGB) -> bool
    decreases rows.len() - i,
{
    if i < 0 || i >= rows.len() {
        true
    } else {
        let r = row_text(rows[i], 0, lf, lb);
        &&& fg_ready(white(), lf, rows[i], 0)
        &&& bg_ready(black(), lb, rows[i], 0)
        &&& reads_back_from(rows, i + 1, r.1, r.2)
    }
}

/// A picture that its saved text gives back.
pub open spec fn savable(rows: Seq<Seq<FmtChar>>) -> bool {
    plain_rows(rows) && reads_back_from(rows, 0, black(), black())
}

/// The rows from `i` on, each followed by a newline cell.
pub open spec fn flat_rows(rows: Seq<Seq<FmtChar>>, i: int) -> Seq<FmtChar>
    decreases rows.len() - i,
{
    if i < 0 || i >= rows.len() {
        seq![]
    } else {
        unmarked_row(rows[i]) + seq![newline_cell()] + flat_rows(rows, i + 1)
    }
}

#[verifier::spinoff_prover]
#[verifier::rlimit(80)]
proof fn lemma_row_reads(
    row: Seq<FmtChar>,
    j: int,
    lf: RGB,
    lb: RGB,
    df: RGB,
    db: RGB,
    z: Seq<char>,
)
    requires
        0 <= j <= row.len(),
        forall|k: int| j <= k < row.len() ==> plain_cell(#[trigger] row[k]),
        fg_ready(df, lf, row, j),
        bg_ready(db, lb, row, j),
    ensures
        cells_from(row_text(row, j, lf, lb).0 + row_end_lf() + z, 0, df, db) == opt_prepend(
            unmarked_row(row.subrange(j, row.len() as int)) + seq![newline_cell()],
            cells_from(z, 0, white(), black()),
        ),
    decreases row.len() - j,
{
    if j == row.len() {
        assert(row_text(row, j, lf, lb).0 =~= Seq::<char>::empty());
        assert(row_text(row, j, lf, lb).0 + row_end_lf() + z =~= row_end_lf() + z);
        assert(unmarked_row(row.subrange(j, row.len() as int)) + seq![newline_cell()] =~= seq![
            newline_cell(),
        ]);
        lemma_cells_row_end(z, df, db);
    } else {
        let c = row[j];
        assert(plain_cell(c));
        let new_fg = !same_colour(lf, c.fg);
        let new_bg = !same_colour(lb, c.bg);
        let f = if new_fg { fg_rgb_seq(c.fg.r, c.fg.g, c.fg.b) } else { seq![] };
        let b = if new_bg { bg_rgb_seq(c.bg.r, c.bg.g, c.bg.b) } else { seq![] };
        let lf2 = if new_fg { c.fg } else { lf };
        let lb2 = if new_bg { c.bg } else { lb };
        let rest = row_text(row, j + 1, lf2, lb2);
        let tail = rest.0 + row_end_lf() + z;
        let df2 = if new_fg { rgb(c.fg.r, c.fg.g, c.fg.b) } else { df };
        let db2 = if new_bg { rgb(c.bg.r, c.bg.g, c.bg.b) } else { db };
        assert(row_text(row, j, lf, lb).0 == f + b + seq![c.ch] + rest.0);
        assert(row_text(row, j, lf, lb).0 + row_end_lf() + z =~= f + (b + (seq![c.ch] + tail)));
        if new_fg {
            lemma_cells_rgb_code('3', c.fg.r, c.fg.g, c.fg.b, b + (seq![c.ch] + tail), df, db);
        } else {
            assert(f + (b + (seq![c.ch] + tail)) =~= b + (seq![c.ch] + tail));
        }
        if new_bg {
            lemma_cells_rgb_code('4', c.bg.r, c.bg.g, c.bg.b, seq![c.ch] + tail, df2, db);
        } else {
            assert(b + (seq![c.ch] + tail) =~= seq![c.ch] + tail);
        }
        lemma_cells_plain(c.ch, tail, df2, db2);
        assert(df2 == plain(c.fg));
        assert(db2 == plain(c.bg));
        assert forall|k: int| j + 1 <= k < row.len() implies plain_cell(#[trigger] row[k]) by {}
        lemma_row_reads(row, j + 1, lf2, lb2, df2, db2, z);
        let tail_cells = unmarked_row(row.subrange(j + 1, row.len() as int)) + seq![newline_cell()];
        assert(unmarked(c) == FmtChar { ch: c.ch, fg: df2, bg: db2 });
        assert(unmarked_row(row.subrange(j, row.len() as int)) =~= seq![unmarked(c)] + unmarked_row(
            row.subrange(j + 1, row.len() as int),
        ));
        assert(unmarked_row(row.subrange(j, row.len() as int)) + seq![newline_cell()] =~= seq![
            FmtChar { ch: c.ch, fg: df2, bg: db2 },
        ] + tail_cells);
        match cells_from(z, 0, white(), black()) {
            Some(rz) => {
                assert(seq![FmtChar { ch: c.ch, fg: df2, bg: db2 }] + (tail_cells + rz) =~= (
                unmarked_row(row.subrange(j, row.len() as int)) + seq![newline_cell()]) + rz);
            },
            None => {},
        }
    }
}


proof fn lemma_rows_read(rows: Seq<Seq<FmtChar>>, i: int, lf: RGB, lb: RGB)
    requires
        0 <= i <= rows.len(),
        plain_rows(rows),
        reads_back_from(rows, i, lf, lb),
    ensures
        cells_from(rows_text_lf(rows, i, lf, lb), 0, white(), black()) == Some(flat_rows(rows, i)),
    decreases rows.len() - i,
{
    if i < rows.len() {
        let r = row_text(rows[i], 0, lf, lb);
        assert forall|k: int| 0 <= k < rows[i].len() implies plain_cell(#[trigger] rows[i][k]) by {}
        lemma_row_reads(rows[i], 0, lf, lb, white(), black(), rows_text_lf(rows, i + 1, r.1, r.2));
        lemma_rows_read(rows, i + 1, r.1, r.2);
        assert(rows[i].subrange(0, rows[i].len() as int) =~= rows[i]);
        assert(unmarked_row(rows[i].subrange(0, rows[i].len() as int)) == unmarked_row(rows[i]));
    } else {
        assert(rows_text_lf(rows, i, lf, lb) =~= Seq::<char>::empty());
    }
}

proof fn lemma_split_concat<T>(a: Seq<T>, n: T, b: Seq<T>, is_nl: spec_fn(T) -> bool)
    requires
        is_nl(n),
    ensures
        split_lines(a + seq![n] + b, is_nl) == split_lines(a, is_nl) + split_lines(b, is_nl),
    decreases b.len(),
{
    let s = a + seq![n] + b;
    if b.len() == 0 {
        assert(s.drop_last() =~= a);
        assert(split_lines(b, is_nl) =~= seq![Seq::<T>::empty()]);
        assert(split_lines(a, is_nl).push(seq![]) =~= split_lines(a, is_nl) + seq![
            Seq::<T>::empty(),
        ]);
    } else {
        let b0 = b.drop_last();
        assert(s.drop_last() =~= a + seq![n] + b0);
        lemma_split_concat(a, n, b0, is_nl);
        lemma_split_lines_nonempty(b0, is_nl);
        let x = split_lines(a, is_nl);
        let y = split_lines(b0, is_nl);
        if is_nl(b.last()) {
            assert((x + y).push(seq![]) =~= x + y.push(seq![]));
        } else {
            assert((x + y).update((x + y).len() - 1, (x + y).last().push(b.last())) =~= x + y.update(
                y.len() - 1,
                y.last().push(b.last()),
            ));
        }
    }
}

proof fn lemma_split_clean<T>(a: Seq<T>, is_nl: spec_fn(T) -> bool)
    requires
        forall|k: int| 0 <= k < a.len() ==> !is_nl(#[trigger] a[k]),
    ensures
        split_lines(a, is_nl) == seq![a],
    decreases a.len(),
{
    if a.len() > 0 {
        lemma_split_clean(a.drop_last(), is_nl);
        assert(!is_nl(a[a.len() - 1]));
        assert(a.drop_last().push(a.last()) =~= a);
        assert(seq![a.drop_last()].update(0, a) =~= seq![a]);
    } else {
        assert(a =~= Seq::<T>::empty());
    }
}

proof fn lemma_split_flat(rows: Seq<Seq<FmtChar>>, i: int)
    requires
        0 <= i <= rows.len(),
        plain_rows(rows),
    ensures
        split_lines(flat_rows(rows, i), cell_is_newline()) == unmarked_rows(rows).skip(i).push(
            seq![],
        ),
    decreases rows.len() - i,
{
    let u = unmarked_rows(rows);
    if i < rows.len() {
        lemma_split_flat(rows, i + 1);
        let r = unmarked_row(rows[i]);
        assert(u[i] == r);
        assert forall|k: int| 0 <= k < r.len() implies !cell_is_newline()(#[trigger] r[k]) by {
            assert(plain_cell(rows[i][k]));
            assert(r[k] == unmarked(rows[i][k]));
        }
        lemma_split_clean(r, cell_is_newline());
        lemma_split_concat(r, newline_cell(), flat_rows(rows, i + 1), cell_is_newline());
        assert(seq![r] + u.skip(i + 1).push(seq![]) =~= u.skip(i).push(seq![]));
    } else {
        assert(flat_rows(rows, i) =~= Seq::<FmtChar>::empty());
        assert(u.skip(i).push(seq![]) =~= seq![Seq::<FmtChar>::empty()]);
    }
}

/// Text without a line feed is left as it is when `\r\n` becomes `\n` in front of it.
proof fn lemma_crlf_prefix(s: Seq<char>, t: Seq<char>)
    requires
        forall|k: int| 0 <= k < s.len() ==> #[trigger] s[k] != '\n',
    ensures
        crlf_to_lf(s + seq!['\r', '\n'] + t) == s + seq!['\n'] + crlf_to_lf(t),
    decreases s.len(),
{
    let u = s + seq!['\r', '\n'] + t;
    if s.len() == 0 {
        assert(u =~= seq!['\r', '\n'] + t);
        assert(u.skip(2) =~= t);
        assert(s + seq!['\n'] + crlf_to_lf(t) =~= seq!['\n'] + crlf_to_lf(t));
    } else {
        assert(u[1] != '\n');
        let s1 = s.drop_first();
        assert(u.drop_first() =~= s1 + seq!['\r', '\n'] + t);
        lemma_crlf_prefix(s1, t);
        assert(s + seq!['\n'] + crlf_to_lf(t) =~= seq![s[0]] + (s1 + seq!['\n'] + crlf_to_lf(t)));
    }
}

proof fn lemma_row_text_no_newline(row: Seq<FmtChar>, j: int, lf: RGB, lb: RGB)
    requires
        0 <= j <= row.len(),
        forall|k: int| j <= k < row.len() ==> plain_cell(#[trigger] row[k]),
    ensures
        forall|k: int|
            0 <= k < row_text(row, j, lf, lb).0.len() ==> #[trigger] row_text(row, j, lf, lb).0[k]
                != '\n',
    decreases row.len() - j,
{
    if j < row.len() {
        let c = row[j];
        assert(plain_cell(c));
        let lf2 = if !same_colour(lf, c.fg) { c.fg } else { lf };
        let lb2 = if !same_colour(lb, c.bg) { c.bg } else { lb };
        assert forall|k: int| j + 1 <= k < row.len() implies plain_cell(#[trigger] row[k]) by {}
        lemma_row_text_no_newline(row, j + 1, lf2, lb2);
        lemma_decimal_reads_back(c.fg.r);
        lemma_decimal_reads_back(c.fg.g);
        lemma_decimal_reads_back(c.fg.b);
        lemma_decimal_reads_back(c.bg.r);
        lemma_decimal_reads_back(c.bg.g);
        lemma_decimal_reads_back(c.bg.b);
        let f = if !same_colour(lf, c.fg) { fg_rgb_seq(c.fg.r, c.fg.g, c.fg.b) } else { seq![] };
        let b = if !same_colour(lb, c.bg) { bg_rgb_seq(c.bg.r, c.bg.g, c.bg.b) } else { seq![] };
        let rest = row_text(row, j + 1, lf2, lb2).0;
        let whole = row_text(row, j, lf, lb).0;
        assert(whole == f + b + seq![c.ch] + rest);
        assert forall|k: int| 0 <= k < whole.len() implies #[trigger] whole[k] != '\n' by {
            if k < f.len() {
                assert(whole[k] == f[k]);
            } else if k < f.len() + b.len() {
                assert(whole[k] == b[k - f.len()]);
            } else if k == f.len() + b.len() {
                assert(whole[k] == c.ch);
            } else {
                assert(whole[k] == rest[k - f.len() - b.len() - 1]);
            }
        }
    }
}

proof fn lemma_crlf_rows(rows: Seq<Seq<FmtChar>>, i: int, lf: RGB, lb: RGB)
    requires
        0 <= i <= rows.len(),
        plain_rows(rows),
    ensures
        crlf_to_lf(rows_text(rows, i, lf, lb)) == rows_text_lf(rows, i, lf, lb),
    decreases rows.len() - i,
{
    if i < rows.len() {
        let r = row_text(rows[i], 0, lf, lb);
        assert forall|k: int| 0 <= k < rows[i].len() implies plain_cell(#[trigger] rows[i][k]) by {}
        lemma_row_text_no_newline(rows[i], 0, lf, lb);
        let s = r.0 + fg_reset_seq() + bg_reset_seq();
        assert forall|k: int| 0 <= k < s.len() implies #[trigger] s[k] != '\n' by {
            if k < r.0.len() {
                assert(s[k] == r.0[k]);
            }
        }
        let t = rows_text(rows, i + 1, r.1, r.2);
        assert(rows_text(rows, i, lf, lb) =~= s + seq!['\r', '\n'] + t);
        lemma_crlf_prefix(s, t);
        lemma_crlf_rows(rows, i + 1, r.1, r.2);
        assert(s + seq!['\n'] + rows_text_lf(rows, i + 1, r.1, r.2) =~= rows_text_lf(rows, i, lf, lb));
    } else {
        assert(rows_text(rows, i, lf, lb) =~= Seq::<char>::empty());
        assert(rows_text_lf(rows, i, lf, lb) =~= Seq::<char>::empty());
    }
}

/// A reset sequence `ESC [ body` of three characters, `39m` or `49m`, read at the start.
proof fn lemma_cells_reset3(body: Seq<char>, y: Seq<char>, fg: RGB, bg: RGB)
    requires
        body == seq!['3', '9', 'm'] || body == seq!['4', '9', 'm'],
    ensures
        cells_from(csi(body) + y, 0, fg, bg) == cells_from(y, 0, white(), black()),
{
    let t = csi(body) + y;
    assert(t.subrange(2, 4) =~= body.subrange(0, 2));
    assert(body.subrange(0, 2) != reset_short()) by {
        assert(body.subrange(0, 2)[0] != reset_short()[0]);
    }
    assert(t.subrange(2, 5) =~= body);
    assert(escape_step(t, 0, fg, bg) == Some((5int, white(), black())));
    lemma_cells_after(csi(body), y, white(), black());
    assert(t[0] == ESC);
}

/// How a picture text reads, one piece at a time, with `fg` and `bg` in force: a true
/// colour foreground sequence makes its colour the foreground for what follows, and a
/// background sequence the background; `ESC [ 0 m` and both reset sequences (foreground
/// and background alike) bring back white on black; any other character is one cell in the
/// colours in force, before the cells of what follows.
pub proof fn law_reading_pieces(y: Seq<char>, r: u8, g: u8, b: u8, fg: RGB, bg: RGB, c: char)
    ensures
        cells_from(fg_rgb_seq(r, g, b) + y, 0, fg, bg) == cells_from(y, 0, rgb(r, g, b), bg),
        cells_from(bg_rgb_seq(r, g, b) + y, 0, fg, bg) == cells_from(y, 0, fg, rgb(r, g, b)),
        cells_from(seq![ESC, '[', '0', 'm'] + y, 0, fg, bg) == cells_from(y, 0, white(), black()),
        cells_from(fg_reset_seq() + y, 0, fg, bg) == cells_from(y, 0, white(), black()),
        cells_from(bg_reset_seq() + y, 0, fg, bg) == cells_from(y, 0, white(), black()),
        c != ESC ==> cells_from(seq![c] + y, 0, fg, bg) == match cells_from(y, 0, fg, bg) {
            Some(rest) => Some(seq![FmtChar { ch: c, fg, bg }] + rest),
            None => None,
        },
{
    lemma_cells_rgb_code('3', r, g, b, y, fg, bg);
    lemma_cells_rgb_code('4', r, g, b, y, fg, bg);
    lemma_cells_reset3(seq!['3', '9', 'm'], y, fg, bg);
    lemma_cells_reset3(seq!['4', '9', 'm'], y, fg, bg);
    let z = seq![ESC, '[', '0', 'm'];
    let t = z + y;
    assert(t.subrange(2, 4) =~= reset_short());
    assert(escape_step(t, 0, fg, bg) == Some((4int, white(), black())));
    lemma_cells_after(z, y, white(), black());
    assert(t[0] == ESC);
    if c != ESC {
        lemma_cells_plain(c, y, fg, bg);
    }
}

/// Saving and opening again: a picture whose cells hold neither the escape character nor a
/// newline, and whose rows each start in colours that reading gets right (see
/// `reads_back_from`), is a picture text once saved with bare line feeds, and reading that
/// text gives the picture back with the same shape, the same characters and the same
/// colours by component; only the `default` marks, which are not written, are gone. A
/// picture without such marks comes back exactly.
pub proof fn law_saved_picture_reads_back(rows: Seq<Seq<FmtChar>>)
    requires
        savable(rows),
    ensures
        is_picture_text(crlf_to_lf(buffer_text(rows))),
        picture_rows(crlf_to_lf(buffer_text(rows))) == unmarked_rows(rows),
        ({
            let back = picture_rows(crlf_to_lf(buffer_text(rows)));
            &&& back.len() == rows.len()
            &&& forall|i: int| 0 <= i < rows.len() ==> #[trigger] back[i].len() == rows[i].len()
            &&& forall|i: int, j: int|
                0 <= i < rows.len() && 0 <= j < rows[i].len() ==> {
                    &&& #[trigger] back[i][j].ch == rows[i][j].ch
                    &&& same_colour(back[i][j].fg, rows[i][j].fg)
                    &&& same_colour(back[i][j].bg, rows[i][j].bg)
                }
        }),
        (forall|i: int, j: int|
            0 <= i < rows.len() && 0 <= j < rows[i].len() ==> !(#[trigger] rows[i][j]).fg.default
                && !rows[i][j].bg.default) ==> picture_rows(crlf_to_lf(buffer_text(rows)))
            == rows,
{
    lemma_crlf_rows(rows, 0, black(), black());
    lemma_rows_read(rows, 0, black(), black());
    lemma_split_flat(rows, 0);
    let u = unmarked_rows(rows);
    assert(u.skip(0) =~= u);
    assert(u.push(seq![]).drop_last() =~= u);
    if forall|i: int, j: int|
        0 <= i < rows.len() && 0 <= j < rows[i].len() ==> !(#[trigger] rows[i][j]).fg.default
            && !rows[i][j].bg.default {
        assert forall|i: int| 0 <= i < rows.len() implies #[trigger] u[i] == rows[i] by {
            assert(u[i] =~= rows[i]);
        }
        assert(u =~= rows);
    }
}

} // verus!
