//! Colours of a cell.
use vstd::prelude::*;
use crate::terminal::{bg_rgb_code, bg_rgb_seq, fg_rgb_code, fg_rgb_seq};
use crate::text::{
    hex_char, hex_char_exec, hex_digits_value, hex_u32_of, hex_value, is_hex_digit, push_char,
    trim_hashes, unsigned_digits,
};

verus! {

/// A 24-bit colour. `default` marks a colour that the pen does not apply.
#[derive(Copy, Clone, Debug)]
pub struct RGB {
    pub r: u8,
    pub g: u8,
    pub b: u8,
    pub default: bool,
}

/// The colour with the given components, not marked default.
pub open spec fn rgb(r: u8, g: u8, b: u8) -> RGB {
    RGB { r, g, b, default: false }
}

/// Two colours are the same colour when their components agree; the `default` mark is ignored.
pub open spec fn same_colour(a: RGB, b: RGB) -> bool {
    a.r == b.r && a.g == b.g && a.b == b.b
}

/// The colour encoded by the low 24 bits of `n` as `0xRRGGBB`.
pub open spec fn html_colour(n: u32) -> RGB {
    rgb(((n / 0x10000) % 0x100) as u8, ((n / 0x100) % 0x100) as u8, (n % 0x100) as u8)
}

/// Black text on bright colours, white text on dark ones.
pub open spec fn inverted(c: RGB) -> RGB {
    if c.r + c.g + c.b > 384 {
        rgb(0, 0, 0)
    } else {
        rgb(255, 255, 255)
    }
}

/// Two upper-case hexadecimal digits of a byte.
pub open spec fn hex_byte(v: u8) -> Seq<char> {
    seq![hex_char((v / 16) as nat), hex_char((v % 16) as nat)]
}

/// `#RRGGBB` in upper-case hexadecimal, or `default` for a colour marked default.
pub open spec fn html_string(c: RGB) -> Seq<char> {
    if c.default {
        "default"@
    } else {
        seq!['#'] + hex_byte(c.r) + hex_byte(c.g) + hex_byte(c.b)
    }
}

impl RGB {
    pub fn new(r: u8, g: u8, b: u8) -> (c: RGB)
        ensures
            c == rgb(r, g, b),
    {
        RGB { r: r, g: g, b: b, default: false }
    }

    /// Decodes `0xRRGGBB`; bits above the low 24 are ignored.
    pub fn from_html(n: u32) -> (c: RGB)
        ensures
            c == html_colour(n),
    {
        let r: u8 = ((n >> 16) & 0xFF) as u8;
        let g: u8 = ((n >> 8) & 0xFF) as u8;
        let b: u8 = ((n >> 0) & 0xFF) as u8;
        assert(((n >> 16) & 0xFF) == (n / 0x10000) % 0x100) by (bit_vector);
        assert(((n >> 8) & 0xFF) == (n / 0x100) % 0x100) by (bit_vector);
        assert(((n >> 0) & 0xFF) == n % 0x100) by (bit_vector);
        RGB { r: r, g: g, b: b, default: false }
    }

    /// A text colour that stays readable on this colour.
    pub fn get_inverted(&self) -> (c: RGB)
        ensures
            c == inverted(*self),
    {
        let txt_col: RGB;
        if self.r as u16 + self.g as u16 + self.b as u16 > 384 {
            txt_col = RGB::new(0, 0, 0);
        } else {
            txt_col = RGB::new(255, 255, 255);
        }
        return txt_col;
    }

    /// The sequence that makes this colour the foreground.
    pub fn to_fg(&self) -> (s: String)
        ensures
            s@ == fg_rgb_seq(self.r, self.g, self.b),
    {
        fg_rgb_code(self.r, self.g, self.b)
    }

    /// The sequence that makes this colour the background.
    pub fn to_bg(&self) -> (s: String)
        ensures
            s@ == bg_rgb_seq(self.r, self.g, self.b),
    {
        bg_rgb_code(self.r, self.g, self.b)
    }

    /// The colour as `#RRGGBB`, or `default`.
    pub fn to_html_string(&self) -> (s: String)
        ensures
            s@ == html_string(*self),
    {
        if self.default {
            proof {
                reveal_strlit("default");
            }
            return "default".to_owned();
        }
        let mut s = String::new();
        push_char(&mut s, '#');
        push_char(&mut s, hex_char_exec(self.r / 16));
        push_char(&mut s, hex_char_exec(self.r % 16));
        push_char(&mut s, hex_char_exec(self.g / 16));
        push_char(&mut s, hex_char_exec(self.g % 16));
        push_char(&mut s, hex_char_exec(self.b / 16));
        push_char(&mut s, hex_char_exec(self.b % 16));
        assert(s@ =~= html_string(*self));
        s
    }
}

impl PartialEq for RGB {
    fn eq(&self, other: &Self) -> (res: bool) {
        self.r == other.r && self.g == other.g && self.b == other.b
    }
}

impl vstd::std_specs::cmp::PartialEqSpecImpl for RGB {
    open spec fn obeys_eq_spec() -> bool {
        true
    }

    open spec fn eq_spec(&self, other: &Self) -> bool {
        same_colour(*self, *other)
    }
}


/// An upper-case hexadecimal digit.
pub open spec fn is_upper_hex_digit(c: char) -> bool {
    ('0' <= c && c <= '9') || ('A' <= c && c <= 'F')
}

proof fn lemma_hex_char(v: nat)
    requires
        v < 16,
    ensures
        is_hex_digit(hex_char(v)),
        is_upper_hex_digit(hex_char(v)),
        hex_value(hex_char(v)) == v,
{
    if v < 10 {
        assert(hex_char(v) as int == v + '0' as int);
    } else {
        assert(hex_char(v) as int == v - 10 + 'A' as int);
    }
}

proof fn lemma_hex_byte(v: u8)
    ensures
        hex_byte(v).len() == 2,
        is_upper_hex_digit(hex_byte(v)[0]) && is_upper_hex_digit(hex_byte(v)[1]),
        is_hex_digit(hex_byte(v)[0]) && is_hex_digit(hex_byte(v)[1]),
{
    lemma_hex_char((v / 16) as nat);
    lemma_hex_char((v % 16) as nat);
}

/// Two more digits after `a` multiply its value by 256 and add theirs.
proof fn lemma_hex_append_byte(a: Seq<char>, v: u8)
    ensures
        hex_digits_value(a + hex_byte(v)) == hex_digits_value(a) * 256 + v,
{
    lemma_hex_char((v / 16) as nat);
    lemma_hex_char((v % 16) as nat);
    let s = a + hex_byte(v);
    assert(s.drop_last() =~= a.push(hex_char((v / 16) as nat)));
    assert(s.drop_last().drop_last() =~= a);
    assert(s.last() == hex_char((v % 16) as nat));
    assert(s.drop_last().last() == hex_char((v / 16) as nat));
    assert(hex_digits_value(s) == hex_digits_value(s.drop_last()) * 16 + hex_value(s.last()));
    assert(hex_digits_value(s.drop_last()) == hex_digits_value(s.drop_last().drop_last()) * 16
        + hex_value(s.drop_last().last()));
    assert(v == (v / 16) * 16 + v % 16);
}

/// The six digits of a colour written as `#RRGGBB`.
pub open spec fn html_digits(c: RGB) -> Seq<char> {
    hex_byte(c.r) + hex_byte(c.g) + hex_byte(c.b)
}

proof fn lemma_html_digits(c: RGB)
    ensures
        html_digits(c).len() == 6,
        forall|i: int| 0 <= i < 6 ==> #[trigger] is_upper_hex_digit(html_digits(c)[i]),
        forall|i: int| 0 <= i < 6 ==> #[trigger] is_hex_digit(html_digits(c)[i]),
        hex_digits_value(html_digits(c)) == c.r * 65536 + c.g * 256 + c.b,
{
    lemma_hex_byte(c.r);
    lemma_hex_byte(c.g);
    lemma_hex_byte(c.b);
    let e = Seq::<char>::empty();
    assert(e + hex_byte(c.r) =~= hex_byte(c.r));
    lemma_hex_append_byte(e, c.r);
    lemma_hex_append_byte(hex_byte(c.r), c.g);
    lemma_hex_append_byte(hex_byte(c.r) + hex_byte(c.g), c.b);
    let d = html_digits(c);
    assert forall|i: int| 0 <= i < 6 implies #[trigger] is_upper_hex_digit(d[i]) && is_hex_digit(d[i]) by {
        if i < 2 {
            assert(d[i] == hex_byte(c.r)[i]);
        } else if i < 4 {
            assert(d[i] == hex_byte(c.g)[i - 2]);
        } else {
            assert(d[i] == hex_byte(c.b)[i - 4]);
        }
    }
}

proof fn lemma_html_colour_parts(r: u8, g: u8, b: u8)
    ensures
        html_colour((r * 65536 + g * 256 + b) as u32) == rgb(r, g, b),
{
    let n: u32 = (r * 65536 + g * 256 + b) as u32;
    assert(n == r * 65536 + g * 256 + b);
    assert((n / 0x10000) % 0x100 == r && (n / 0x100) % 0x100 == g && n % 0x100 == b) by (bit_vector)
        requires
            n == (r as u32) * 65536 + (g as u32) * 256 + b as u32,
    ;
}

/// A colour not marked default, written as `#RRGGBB`, reads back as itself when the `#` is
/// dropped and the digits are taken as a hexadecimal number.
pub proof fn law_html_string_reads_back(c: RGB)
    requires
        !c.default,
    ensures
        hex_u32_of(trim_hashes(html_string(c))) == Some((c.r * 65536 + c.g * 256 + c.b) as u32),
        html_colour(hex_u32_of(trim_hashes(html_string(c))).unwrap()) == c,
{
    lemma_html_digits(c);
    let d = html_digits(c);
    assert(html_string(c) =~= seq!['#'] + d);
    assert((seq!['#'] + d).drop_first() =~= d);
    assert(d[0] != '#' && d[0] != '+');
    assert(trim_hashes(d) == d);
    assert(trim_hashes(html_string(c)) == d);
    assert(unsigned_digits(d) == d);
    lemma_html_colour_parts(c.r, c.g, c.b);
}

/// The colour of a number, written as `#RRGGBB`: `#` and six upper-case hexadecimal digits
/// that spell the number's low 24 bits, as `format!("#{:06X}", n & 0xFFFFFF)` writes them.
pub proof fn law_html_string_of_number(n: u32)
    ensures
        html_string(html_colour(n)).len() == 7,
        html_string(html_colour(n))[0] == '#',
        forall|i: int| 1 <= i < 7 ==> #[trigger] is_upper_hex_digit(html_string(html_colour(n))[i]),
        hex_digits_value(html_string(html_colour(n)).drop_first()) == n % 0x1000000,
{
    let c = html_colour(n);
    lemma_html_digits(c);
    let d = html_digits(c);
    assert(html_string(c) =~= seq!['#'] + d);
    assert(html_string(c).drop_first() =~= d);
    assert forall|i: int| 1 <= i < 7 implies #[trigger] is_upper_hex_digit(html_string(c)[i]) by {
        assert(html_string(c)[i] == d[i - 1]);
    }
    assert(n % 0x1000000 == ((n / 0x10000) % 0x100) * 65536 + ((n / 0x100) % 0x100) * 256 + n
        % 0x100) by (bit_vector);
}

} // verus!
