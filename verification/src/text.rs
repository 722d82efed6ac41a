//! Character classes, number formats and string building used across the library.
use vstd::prelude::*;

verus! {

use vstd::std_specs::iter::IteratorSpec;

/// A decimal digit.
pub open spec fn is_dec_digit(c: char) -> bool {
    '0' <= c && c <= '9'
}

/// A hexadecimal digit in either case, as `char::is_digit(16)` accepts it.
pub open spec fn is_hex_digit(c: char) -> bool {
    ||| ('0' <= c && c <= '9')
    ||| ('a' <= c && c <= 'f')
    ||| ('A' <= c && c <= 'F')
}

/// The value of a hexadecimal digit.
pub open spec fn hex_value(c: char) -> nat {
    if '0' <= c && c <= '9' {
        (c as int - '0' as int) as nat
    } else if 'a' <= c && c <= 'f' {
        (c as int - 'a' as int + 10) as nat
    } else {
        (c as int - 'A' as int + 10) as nat
    }
}

/// The character of a digit value below sixteen, upper case.
pub open spec fn hex_char(v: nat) -> char {
    if v < 10 {
        (v + '0' as int) as char
    } else {
        (v - 10 + 'A' as int) as char
    }
}

/// Tests for a hexadecimal digit.
pub fn is_hex_digit_exec(c: char) -> (res: bool)
    ensures
        res == is_hex_digit(c),
{
    ('0' <= c && c <= '9') || ('a' <= c && c <= 'f') || ('A' <= c && c <= 'F')
}

/// The upper-case hexadecimal digit of `v`.
pub fn hex_char_exec(v: u8) -> (c: char)
    requires
        v < 16,
    ensures
        c == hex_char(v as nat),
{
    if v < 10 {
        (v + 48) as char
    } else {
        (v + 55) as char
    }
}

/// Appends one character to a string (`String::push`).
#[verifier::external_body]
pub fn push_char(s: &mut String, c: char)
    ensures
        final(s)@ == old(s)@.push(c),
{
    s.push(c);
}

/// The character of a decimal digit value.
pub open spec fn digit_char(d: nat) -> char {
    (d + '0' as int) as char
}

/// A number in decimal, without leading zeros.
pub open spec fn decimal(n: nat) -> Seq<char>
    decreases n,
{
    if n < 10 {
        seq![digit_char(n)]
    } else {
        decimal(n / 10).push(digit_char(n % 10))
    }
}

/// The value of a string of decimal digits.
pub open spec fn dec_value(s: Seq<char>) -> nat
    decreases s.len(),
{
    if s.len() == 0 {
        0
    } else {
        dec_value(s.drop_last()) * 10 + (s.last() as int - '0' as int) as nat
    }
}

/// The value of a string of hexadecimal digits.
pub open spec fn hex_digits_value(s: Seq<char>) -> nat
    decreases s.len(),
{
    if s.len() == 0 {
        0
    } else {
        hex_digits_value(s.drop_last()) * 16 + hex_value(s.last())
    }
}

/// The digits after an optional leading `+`.
pub open spec fn unsigned_digits(s: Seq<char>) -> Seq<char> {
    if s.len() > 0 && s[0] == '+' {
        s.drop_first()
    } else {
        s
    }
}

/// What `str::parse::<u8>` gives for `s`: an optional `+`, then at least one decimal
/// digit, and a value that fits a byte.
pub open spec fn decimal_u8_of(s: Seq<char>) -> Option<u8> {
    let d = unsigned_digits(s);
    if d.len() > 0 && (forall|i: int| 0 <= i < d.len() ==> is_dec_digit(#[trigger] d[i]))
        && dec_value(d) <= 255 {
        Some(dec_value(d) as u8)
    } else {
        None
    }
}

/// What `u32::from_str_radix(_, 16)` gives for `s`: an optional `+`, then at least one
/// hexadecimal digit, and a value that fits 32 bits.
pub open spec fn hex_u32_of(s: Seq<char>) -> Option<u32> {
    let d = unsigned_digits(s);
    if d.len() > 0 && (forall|i: int| 0 <= i < d.len() ==> is_hex_digit(#[trigger] d[i]))
        && hex_digits_value(d) <= u32::MAX {
        Some(hex_digits_value(d) as u32)
    } else {
        None
    }
}

/// `s` without its leading `#` characters (`trim_start_matches("#")`).
pub open spec fn trim_hashes(s: Seq<char>) -> Seq<char>
    decreases s.len(),
{
    if s.len() > 0 && s[0] == '#' {
        trim_hashes(s.drop_first())
    } else {
        s
    }
}

/// Parses a byte in decimal, as `str::parse::<u8>` does.
pub fn parse_decimal_u8(s: &Vec<char>) -> (res: Option<u8>)
    ensures
        res == decimal_u8_of(s@),
{
    let start: usize = if s.len() > 0 && s[0] == '+' { 1 } else { 0 };
    let ghost d = unsigned_digits(s@);
    assert(d =~= s@.subrange(start as int, s@.len() as int));
    if start >= s.len() {
        return None;
    }
    let mut i: usize = start;
    let mut v: u16 = 0;
    let mut over = false;
    while i < s.len()
        invariant
            start <= i <= s.len(),
            d == unsigned_digits(s@),
            d =~= s@.subrange(start as int, s@.len() as int),
            forall|k: int| 0 <= k < i - start ==> is_dec_digit(#[trigger] d[k]),
            !over ==> v as nat == dec_value(d.take(i - start)) && v <= 255,
            over ==> dec_value(d.take(i - start)) > 255,
        decreases s.len() - i,
    {
        let c = s[i];
        if !('0' <= c && c <= '9') {
            assert(!is_dec_digit(d[i - start]));
            assert(!(forall|k: int| 0 <= k < d.len() ==> is_dec_digit(#[trigger] d[k])));
            return None;
        }
        assert(d.take(i + 1 - start).drop_last() =~= d.take(i - start));
        if !over {
            let nv: u16 = v * 10 + ((c as u32 - 48) as u16);
            if nv > 255 {
                over = true;
            } else {
                v = nv;
            }
        }
        i = i + 1;
    }
    assert(d.take(i - start) =~= d);
    if over {
        None
    } else {
        Some(v as u8)
    }
}

/// Parses a hexadecimal number after skipping leading `#` characters, as
/// `u32::from_str_radix(s.trim_start_matches("#"), 16)` does.
pub fn parse_hex_field(s: &String) -> (res: Option<u32>)
    ensures
        res == hex_u32_of(trim_hashes(s@)),
{
    let t = s.as_str();
    let n = t.unicode_len();
    let mut start: usize = 0;
    assert(s@.subrange(0, n as int) =~= s@);
    while start < n && t.get_char(start) == '#'
        invariant
            start <= n,
            t@ == s@,
            n == s@.len(),
            trim_hashes(s@) == trim_hashes(s@.subrange(start as int, n as int)),
        decreases n - start,
    {
        assert(s@.subrange(start as int, n as int).drop_first() =~= s@.subrange(start + 1, n as int));
        start = start + 1;
    }
    let ghost rest = s@.subrange(start as int, n as int);
    assert(trim_hashes(rest) == rest);
    assert(rest == trim_hashes(s@));
    if start < n && t.get_char(start) == '+' {
        start = start + 1;
    }
    let ghost d = unsigned_digits(rest);
    assert(d =~= s@.subrange(start as int, n as int));
    if start >= n {
        return None;
    }
    let mut i: usize = start;
    let mut v: u64 = 0;
    let mut over = false;
    while i < n
        invariant
            start <= i <= n,
            n == s@.len(),
            t@ == s@,
            d =~= s@.subrange(start as int, n as int),
            d == unsigned_digits(rest),
            rest == trim_hashes(s@),
            forall|k: int| 0 <= k < i - start ==> is_hex_digit(#[trigger] d[k]),
            !over ==> v as nat == hex_digits_value(d.take(i - start)) && v <= u32::MAX,
            over ==> hex_digits_value(d.take(i - start)) > u32::MAX,
        decreases n - i,
    {
        let c = t.get_char(i);
        if !is_hex_digit_exec(c) {
            assert(!is_hex_digit(d[i - start]));
            assert(!(forall|k: int| 0 <= k < d.len() ==> is_hex_digit(#[trigger] d[k])));
            return None;
        }
        assert(d.take(i + 1 - start).drop_last() =~= d.take(i - start));
        if !over {
            let dv: u64 = if '0' <= c && c <= '9' {
                (c as u32 - 48) as u64
            } else if 'a' <= c && c <= 'f' {
                (c as u32 - 87) as u64
            } else {
                (c as u32 - 55) as u64
            };
            let nv: u64 = v * 16 + dv;
            if nv > 0xFFFF_FFFF {
                over = true;
            } else {
                v = nv;
            }
        }
        i = i + 1;
    }
    assert(d.take(i - start) =~= d);
    if over {
        None
    } else {
        Some(v as u32)
    }
}

/// The characters of a string, in order.
pub fn chars_of(s: &String) -> (v: Vec<char>)
    ensures
        v@ == s@,
{
    broadcast use vstd::string::axiom_spec_iter, vstd::string::next_postcondition;
    let mut v: Vec<char> = Vec::new();
    let mut chars = s.as_str().chars();
    loop
        invariant
            v@ + chars.remaining() == s@,
            chars.decrease() is Some,
        ensures
            v@ == s@,
        decreases chars.decrease()->0,
    {
        match chars.next() {
            Some(c) => {
                v.push(c);
                assert(v@ + chars.remaining() =~= s@);
            },
            None => {
                assert(v@ =~= s@);
                break;
            },
        }
    }
    v
}

/// `part` occurs in `text` as a contiguous piece.
pub open spec fn contains_text(text: Seq<char>, part: Seq<char>) -> bool {
    exists|k: int|
        0 <= k && k + part.len() <= text.len() && #[trigger] text.subrange(k, k + part.len())
            == part
}

/// `x + y` holds `y`.
pub proof fn lemma_contains_end(x: Seq<char>, y: Seq<char>)
    ensures
        contains_text(x + y, y),
{
    assert((x + y).subrange(x.len() as int, (x.len() + y.len()) as int) =~= y);
}

/// What `x` holds, `x + y` holds too.
pub proof fn lemma_contains_left(x: Seq<char>, y: Seq<char>, t: Seq<char>)
    requires
        contains_text(x, t),
    ensures
        contains_text(x + y, t),
{
    let k = choose|k: int|
        0 <= k && k + t.len() <= x.len() && #[trigger] x.subrange(k, k + t.len()) == t;
    assert((x + y).subrange(k, k + t.len()) =~= x.subrange(k, k + t.len()));
}

/// What `y` holds, `x + y` holds too.
pub proof fn lemma_contains_right(x: Seq<char>, y: Seq<char>, t: Seq<char>)
    requires
        contains_text(y, t),
    ensures
        contains_text(x + y, t),
{
    let k = choose|k: int|
        0 <= k && k + t.len() <= y.len() && #[trigger] y.subrange(k, k + t.len()) == t;
    assert((x + y).subrange(x.len() + k, x.len() + k + t.len()) =~= y.subrange(k, k + t.len()));
}

} // verus!
