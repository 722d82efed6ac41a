use ansi_paint::format_char::FmtChar;
use ansi_paint::parser::{construct_buffer, make_char_sheet, make_data, read_until};
use ansi_paint::rgb::RGB;

fn chars(s: &str) -> Vec<char> {
    s.chars().collect()
}

fn cell(ch: char, fg: (u8, u8, u8), bg: (u8, u8, u8)) -> FmtChar {
    FmtChar { ch, fg: RGB::new(fg.0, fg.1, fg.2), bg: RGB::new(bg.0, bg.1, bg.2) }
}

fn same_cell(a: &FmtChar, b: &FmtChar) -> bool {
    a.ch == b.ch && a.fg == b.fg && a.bg == b.bg && a.fg.default == b.fg.default
        && a.bg.default == b.bg.default
}

fn same_rows(a: &Vec<Vec<FmtChar>>, b: &Vec<Vec<FmtChar>>) -> bool {
    a.len() == b.len()
        && a.iter().zip(b.iter()).all(|(x, y)| {
            x.len() == y.len() && x.iter().zip(y.iter()).all(|(p, q)| same_cell(p, q))
        })
}

const W: (u8, u8, u8) = (255, 255, 255);
const K: (u8, u8, u8) = (0, 0, 0);

#[test]
fn read_until_reads_to_delimiter() {
    let d = chars("ab;cd");
    assert_eq!(read_until(';', &d, 0), (chars("ab"), 2));
    assert_eq!(read_until(';', &d, 3), (chars("cd"), 5));
    assert_eq!(read_until(';', &d, 4), (vec![], 4));
    assert_eq!(read_until(';', &d, 9), (vec![], 9));
    assert_eq!(read_until(';', &chars("a;;"), 1), (vec![], 1));
}

#[test]
fn make_data_plain_text() {
    let rows = make_data(chars("ab\ncd\n"));
    let want = vec![vec![cell('a', W, K), cell('b', W, K)], vec![cell('c', W, K), cell('d', W, K)]];
    assert!(same_rows(&rows, &want));
    let rows = make_data(chars("ab\n\n"));
    assert_eq!(rows.len(), 2);
    assert_eq!(rows[1].len(), 0);
    assert_eq!(make_data(chars("")).len(), 0);
    let rows = make_data(chars("\n"));
    assert_eq!(rows.len(), 1);
    assert_eq!(rows[0].len(), 0);
}

#[test]
fn make_data_colour_sequences() {
    let text = "\x1b[38;2;1;2;3mA\x1b[48;2;4;5;6mB\x1b[0mC\x1b[38;2;7;8;9mD\x1b[39mE\x1b[48;2;1;1;1mF\x1b[49mG";
    let rows = make_data(chars(text));
    let want = vec![vec![
        cell('A', (1, 2, 3), K),
        cell('B', (1, 2, 3), (4, 5, 6)),
        cell('C', W, K),
        cell('D', (7, 8, 9), K),
        cell('E', W, K),
        cell('F', W, (1, 1, 1)),
        cell('G', W, K),
    ]];
    assert!(same_rows(&rows, &want));
}

#[test]
fn make_data_other_selector_is_ignored() {
    let rows = make_data(chars("\x1b[1;2;3;4;5mZ"));
    assert!(same_rows(&rows, &vec![vec![cell('Z', W, K)]]));
    let rows = make_data(chars("\x1b[38;2;+7;007;255mQ"));
    assert!(same_rows(&rows, &vec![vec![cell('Q', (7, 7, 255), K)]]));
}

#[test]
fn make_char_sheet_drops_trailing_empty_lines() {
    let sheet = make_char_sheet("ab\ncd\n\n\n".to_string());
    assert_eq!(sheet, vec![chars("ab"), chars("cd")]);
    let sheet = make_char_sheet("\n\nx".to_string());
    assert_eq!(sheet, vec![vec![], vec![], chars("x")]);
    assert_eq!(make_char_sheet(String::new()), Vec::<Vec<char>>::new());
    assert_eq!(make_char_sheet("\n\n".to_string()), Vec::<Vec<char>>::new());
}

#[test]
fn construct_buffer_writes_changed_colours_only() {
    let rows = vec![
        vec![cell('A', (1, 2, 3), K), cell('B', (1, 2, 3), K), cell('C', (1, 2, 3), (9, 9, 9))],
        vec![cell('D', (1, 2, 3), (9, 9, 9))],
        vec![],
    ];
    let text = construct_buffer(&rows);
    let end = "\x1b[39m\x1b[49m\r\n";
    let want = format!(
        "\x1b[38;2;1;2;3mAB\x1b[48;2;9;9;9mC{end}D{end}{end}",
        end = end
    );
    assert_eq!(text, want);
    assert_eq!(construct_buffer(&vec![]), "");
}

#[test]
fn saved_picture_reads_back() {
    let rows = vec![
        vec![cell('x', (10, 20, 30), (40, 50, 60)), cell('y', W, (40, 50, 60))],
        vec![cell('z', (1, 1, 1), (2, 2, 2))],
    ];
    let text = construct_buffer(&rows).replace("\r\n", "\n");
    assert!(same_rows(&make_data(text.chars().collect()), &rows));
}

#[test]
fn black_first_cell_does_not_read_back() {
    let rows = vec![vec![cell('x', K, K)]];
    let text = construct_buffer(&rows).replace("\r\n", "\n");
    let back = make_data(text.chars().collect());
    assert!(same_rows(&back, &vec![vec![cell('x', W, K)]]));
}
