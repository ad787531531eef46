//! The escapes that keep text from being read as Markdown syntax it does not mean.
use vstd::prelude::*;

use crate::text::{
    Class, chars_of, digit_value, digits_value, is_control, is_digit, is_lower, is_space, lead,
    lead_len, put, put_str, string_of, tail_len, trim_end_by, trim_end_chars,
};

verus! {

/// A heading's text with the marks that end a sentence taken off, and a closing
/// run of `#` that Markdown would drop escaped.
pub open spec fn titled_of(s: Seq<char>) -> Seq<char> {
    let text = trim_end_by(s, Class::Stop);
    let bare = trim_end_by(text, Class::Is('#'));
    if bare.len() < text.len() && (bare.len() == 0 || bare.last() == ' ' || bare.last() == '\t') {
        bare + seq!['\\'] + text.skip(bare.len() as int)
    } else {
        text
    }
}

/// The text of a heading, fit to follow its `#` marks.
pub fn titled(text: &str) -> (out: String)
    ensures
        out@ == titled_of(text@),
{
    let s = chars_of(text);
    let t = trim_end_chars(s.as_slice(), &Class::Stop);
    let bare = trim_end_chars(t.as_slice(), &Class::Is('#'));
    if bare.len() < t.len() && (bare.len() == 0 || bare[bare.len() - 1] == ' ' || bare[bare.len()
        - 1] == '\t') {
        let mut out: Vec<char> = Vec::new();
        put(&mut out, bare.as_slice());
        out.push('\\');
        let mut i = bare.len();
        let ghost mid = out@;
        while i < t.len()
            invariant
                bare@.len() <= i <= t@.len(),
                out@ == mid + t@.subrange(bare@.len() as int, i as int),
            decreases t.len() - i,
        {
            out.push(t[i]);
            i = i + 1;
        }
        assert(t@.subrange(bare@.len() as int, t@.len() as int) == t@.skip(bare@.len() as int));
        string_of(out.as_slice())
    } else {
        string_of(t.as_slice())
    }
}

/// The line opens an ATX heading: one to six `#`, then nothing or a blank.
pub open spec fn headed_of(s: Seq<char>) -> bool {
    let n = lead(s, Class::Is('#'));
    &&& 1 <= n <= 6
    &&& (n == s.len() || s[n as int] == ' ' || s[n as int] == '\t')
}

pub fn headed(text: &str) -> (r: bool)
    ensures
        r == headed_of(text@),
{
    let s = chars_of(text);
    let n = lead_len(s.as_slice(), &Class::Is('#'));
    1 <= n && n <= 6 && (n == s.len() || s[n] == ' ' || s[n] == '\t')
}

/// The characters of `s` that are not whitespace.
pub open spec fn marks_of(s: Seq<char>) -> Seq<char>
    decreases s.len(),
{
    if s.len() == 0 {
        Seq::<char>::empty()
    } else if is_space(s.last()) {
        marks_of(s.drop_last())
    } else {
        marks_of(s.drop_last()).push(s.last())
    }
}

/// Every character of `s` is `c`.
pub open spec fn all_are(s: Seq<char>, c: char) -> bool {
    forall|i: int| 0 <= i < s.len() ==> s[i] == c
}

/// The line is a thematic break: three or more of one of `-`, `*`, `_`, blanks aside.
pub open spec fn ruled_of(s: Seq<char>) -> bool {
    let m = marks_of(s);
    m.len() >= 3 && (all_are(m, '-') || all_are(m, '*') || all_are(m, '_'))
}

pub fn ruled(line: &str) -> (r: bool)
    ensures
        r == ruled_of(line@),
{
    let s = chars_of(line);
    let mut marks: Vec<char> = Vec::new();
    let mut i: usize = 0;
    while i < s.len()
        invariant
            i <= s@.len(),
            marks@ == marks_of(s@.take(i as int)),
        decreases s.len() - i,
    {
        assert(s@.take(i + 1).drop_last() == s@.take(i as int));
        if !crate::text::space(s[i]) {
            marks.push(s[i]);
        }
        i = i + 1;
    }
    assert(s@.take(s@.len() as int) == s@);
    if marks.len() < 3 {
        return false;
    }
    let dash = all_same(&marks, '-');
    let star = all_same(&marks, '*');
    let low = all_same(&marks, '_');
    dash || star || low
}

fn all_same(v: &Vec<char>, c: char) -> (r: bool)
    ensures
        r == all_are(v@, c),
{
    let mut i: usize = 0;
    while i < v.len()
        invariant
            i <= v@.len(),
            forall|j: int| 0 <= j < i ==> v@[j] == c,
        decreases v.len() - i,
    {
        if v[i] != c {
            return false;
        }
        i = i + 1;
    }
    true
}

/// `10` to the power `n`.
pub open spec fn pow10(n: nat) -> nat
    decreases n,
{
    if n == 0 {
        1
    } else {
        10 * pow10((n - 1) as nat)
    }
}

/// The line opens an ordered list item: one to nine digits, `.` or `)`, then
/// nothing or a blank. Gives the number of digits and their value.
pub open spec fn numbered_of(s: Seq<char>) -> Option<(nat, nat)> {
    let d = lead(s, Class::Digit);
    let rest = s.skip(d as int);
    if rest.len() > 0 && (rest[0] == '.' || rest[0] == ')') && 1 <= d <= 9 && (rest.len() == 1
        || rest[1] == ' ' || rest[1] == '\t') {
        Some((d, digits_value(s.take(d as int))))
    } else {
        None
    }
}

pub fn numbered(text: &str) -> (r: Option<(usize, u64)>)
    ensures
        r is None <==> numbered_of(text@) is None,
        r matches Some((d, v)) ==> numbered_of(text@) == Some((d as nat, v as nat)),
{
    let s = chars_of(text);
    let d = lead_len(s.as_slice(), &Class::Digit);
    if !(d < s.len() && (s[d] == '.' || s[d] == ')') && 1 <= d && d <= 9 && (d + 1 == s.len()
        || s[d + 1] == ' ' || s[d + 1] == '\t')) {
        assert(s@.skip(d as int).len() > 0 ==> s@.skip(d as int)[0] == s@[d as int]);
        assert(s@.skip(d as int).len() > 1 ==> s@.skip(d as int)[1] == s@[d + 1]);
        return None;
    }
    assert(s@.skip(d as int)[0] == s@[d as int]);
    assert(s@.skip(d as int).len() > 1 ==> s@.skip(d as int)[1] == s@[d + 1]);
    let mut value: u64 = 0;
    let mut i: usize = 0;
    while i < d
        invariant
            i <= d <= 9,
            d <= s@.len(),
            forall|j: int| 0 <= j < d ==> is_digit(#[trigger] s@[j]),
            value == digits_value(s@.take(i as int)),
            value < pow10(i as nat),
            pow10(i as nat) <= 1_000_000_000,
        decreases d - i,
    {
        assert(s@.take(i + 1).drop_last() == s@.take(i as int));
        assert(is_digit(s@[i as int]));
        let next = value * 10 + (s[i] as u64 - '0' as u64);
        assert(next == digits_value(s@.take(i + 1)));
        assert(pow10((i + 1) as nat) == 10 * pow10(i as nat));
        value = next;
        i = i + 1;
        proof {
            if i < 9 {
                assert(pow10(i as nat) <= 100_000_000) by {
                    reveal_with_fuel(pow10, 10);
                    assert(pow10(9) == 1_000_000_000);
                    lemma_pow10_mono(i as nat, 8);
                    assert(pow10(8) == 100_000_000);
                }
            } else {
                assert(pow10(9) == 1_000_000_000) by {
                    reveal_with_fuel(pow10, 10);
                }
            }
        }
    }
    Some((d, value))
}

proof fn lemma_pow10_mono(a: nat, b: nat)
    requires
        a <= b,
    ensures
        pow10(a) <= pow10(b),
    decreases b,
{
    if a < b {
        lemma_pow10_mono(a, (b - 1) as nat);
    }
}

/// The name of a code block's language is a word of lower-case letters, digits,
/// `+`, `#` and `-` that opens with a letter.
pub open spec fn lang_ok(s: Seq<char>) -> bool {
    &&& s.len() > 0
    &&& is_lower(s[0])
    &&& forall|i: int|
        1 <= i < s.len() ==> is_lower(#[trigger] s[i]) || is_digit(s[i]) || s[i] == '+' || s[i]
            == '#' || s[i] == '-'
}

/// The info string of a fenced block: the language where it is a plain name, else `text`.
pub fn info<'a>(lang: Option<&'a str>) -> (r: &'a str)
    ensures
        r@ == (match lang {
            Some(l) => if lang_ok(l@) {
                l@
            } else {
                "text"@
            },
            None => "text"@,
        }),
{
    match lang {
        None => "text",
        Some(l) => {
            let s = chars_of(l);
            if s.len() == 0 || !('a' <= s[0] && s[0] <= 'z') {
                assert(!lang_ok(l@));
                return "text";
            }
            let mut i: usize = 1;
            while i < s.len()
                invariant
                    1 <= i <= s@.len(),
                    s@ == l@,
                    lang == Some(l),
                    forall|j: int|
                        1 <= j < i ==> is_lower(#[trigger] s@[j]) || is_digit(s@[j]) || s@[j]
                            == '+' || s@[j] == '#' || s@[j] == '-',
                decreases s.len() - i,
            {
                let c = s[i];
                if !(('a' <= c && c <= 'z') || ('0' <= c && c <= '9') || c == '+' || c == '#' || c
                    == '-') {
                    assert(!(is_lower(s@[i as int]) || is_digit(s@[i as int]) || s@[i as int]
                        == '+' || s@[i as int] == '#' || s@[i as int] == '-'));
                    assert(l@[i as int] == s@[i as int]);
                    assert(!lang_ok(l@));
                    return "text";
                }
                i = i + 1;
            }
            l
        },
    }
}

/// A character that a local link cannot hold bare.
pub open spec fn unsafe_in_link(c: char) -> bool {
    ||| is_control(c)
    ||| c == ' '
    ||| c == '('
    ||| c == ')'
    ||| c == '<'
    ||| c == '>'
    ||| c == '['
    ||| c == ']'
    ||| c == '\\'
    ||| c == '`'
    ||| c == '%'
    ||| c == '#'
    ||| c == '?'
    ||| c == '"'
    ||| c == '^'
    ||| c == '{'
    ||| c == '}'
    ||| c == '|'
}

/// The upper-case hexadecimal digit of `d`.
pub open spec fn hex_digit(d: nat) -> char {
    seq!['0', '1', '2', '3', '4', '5', '6', '7', '8', '9', 'A', 'B', 'C', 'D', 'E', 'F'][d as int]
}

/// `%` and the byte in two upper-case hexadecimal digits.
pub open spec fn percent(b: nat) -> Seq<char> {
    seq!['%', hex_digit(b / 16), hex_digit(b % 16)]
}

/// The percent-escape of a character that a link cannot hold: one byte for an
/// ASCII character, and the two bytes of UTF-8 for a control from U+0080 on.
pub open spec fn escaped_char(c: char) -> Seq<char> {
    if !unsafe_in_link(c) {
        seq![c]
    } else if (c as nat) < 128 {
        percent(c as nat)
    } else {
        percent(0xc2) + percent(c as nat)
    }
}

/// Every character of a path escaped as a local link needs it.
pub open spec fn local_of(s: Seq<char>) -> Seq<char>
    decreases s.len(),
{
    if s.len() == 0 {
        Seq::<char>::empty()
    } else {
        local_of(s.drop_last()) + escaped_char(s.last())
    }
}

fn hex(d: u32) -> (c: char)
    requires
        d < 16,
    ensures
        c == hex_digit(d as nat),
{
    match d {
        0 => '0',
        1 => '1',
        2 => '2',
        3 => '3',
        4 => '4',
        5 => '5',
        6 => '6',
        7 => '7',
        8 => '8',
        9 => '9',
        10 => 'A',
        11 => 'B',
        12 => 'C',
        13 => 'D',
        14 => 'E',
        _ => 'F',
    }
}

/// The scalar value of `c`.
fn code(c: char) -> (n: u32)
    ensures
        n as nat == c as nat,
        c <= '\u{9f}' ==> n <= 0x9f,
{
    assert(c <= '\u{9f}' ==> (c as int) <= 0x9f);
    assert(c <= '\u{9f}' ==> (c as nat) <= 0x9f);
    c as u32
}

fn put_percent(out: &mut Vec<char>, b: u32)
    requires
        b < 256,
    ensures
        final(out)@ == old(out)@ + percent(b as nat),
{
    out.push('%');
    out.push(hex(b / 16));
    out.push(hex(b % 16));
    assert(final(out)@ == old(out)@ + percent(b as nat));
}

/// A path in a bundle as a Markdown link target: what a link cannot hold bare is
/// percent-escaped by its UTF-8 bytes.
pub fn local(path: &str) -> (out: String)
    ensures
        out@ == local_of(path@),
{
    let s = chars_of(path);
    let mut out: Vec<char> = Vec::new();
    let mut i: usize = 0;
    while i < s.len()
        invariant
            i <= s@.len(),
            out@ == local_of(s@.take(i as int)),
        decreases s.len() - i,
    {
        let c = s[i];
        assert(s@.take(i + 1).drop_last() == s@.take(i as int));
        let bad = crate::text::control(c) || c == ' ' || c == '(' || c == ')' || c == '<' || c
            == '>' || c == '[' || c == ']' || c == '\\' || c == '`' || c == '%' || c == '#' || c
            == '?' || c == '"' || c == '^' || c == '{' || c == '}' || c == '|';
        let ghost before = out@;
        if !bad {
            out.push(c);
        } else if code(c) < 128 {
            put_percent(&mut out, code(c));
        } else {
            assert(is_control(c));
            put_percent(&mut out, 0xc2);
            put_percent(&mut out, code(c));
            assert(out@ == before + (percent(0xc2) + percent(c as nat)));
        }
        assert(out@ == before + escaped_char(c));
        i = i + 1;
    }
    assert(s@.take(s@.len() as int) == s@);
    string_of(out.as_slice())
}

/// The line opens a bullet, a block quote or a fence.
pub open spec fn marked_of(s: Seq<char>) -> bool {
    ||| s.len() > 0 && (s[0] == '-' || s[0] == '+' || s[0] == '*') && (s.len() == 1 || s[1]
        == ' ' || s[1] == '\t')
    ||| s.len() > 0 && s[0] == '>'
    ||| s.len() >= 3 && s[0] == '`' && s[1] == '`' && s[2] == '`'
    ||| s.len() >= 3 && s[0] == '~' && s[1] == '~' && s[2] == '~'
}

fn marked(s: &Vec<char>) -> (r: bool)
    ensures
        r == marked_of(s@),
{
    let n = s.len();
    (n > 0 && (s[0] == '-' || s[0] == '+' || s[0] == '*') && (n == 1 || s[1] == ' ' || s[1]
        == '\t')) || (n > 0 && s[0] == '>') || (n >= 3 && s[0] == '`' && s[1] == '`' && s[2]
        == '`') || (n >= 3 && s[0] == '~' && s[1] == '~' && s[2] == '~')
}

/// A line of text that Markdown reads as text: a backslash before what would
/// open a heading, a bullet, a quote, a fence, a break or a numbered item.
pub open spec fn opened_of(s: Seq<char>) -> Seq<char> {
    if headed_of(s) || marked_of(s) || ruled_of(s) {
        seq!['\\'] + s
    } else {
        match numbered_of(s) {
            Some((d, _)) => s.take(d as int) + seq!['\\'] + s.skip(d as int),
            None => s,
        }
    }
}

pub fn opened(text: &str) -> (out: String)
    ensures
        out@ == opened_of(text@),
{
    let s = chars_of(text);
    if headed(text) || marked(&s) || ruled(text) {
        let mut out: Vec<char> = Vec::new();
        out.push('\\');
        put(&mut out, s.as_slice());
        return string_of(out.as_slice());
    }
    match numbered(text) {
        Some((d, _)) => {
            proof {
                crate::text::lemma_lead_le(text@, Class::Digit);
            }
            let mut out: Vec<char> = Vec::new();
            let mut i: usize = 0;
            while i < d
                invariant
                    i <= d <= s@.len(),
                    out@ == s@.take(i as int),
                decreases d - i,
            {
                out.push(s[i]);
                i = i + 1;
            }
            out.push('\\');
            let ghost mid = out@;
            while i < s.len()
                invariant
                    d <= i <= s@.len(),
                    out@ == mid + s@.subrange(d as int, i as int),
                decreases s.len() - i,
            {
                out.push(s[i]);
                i = i + 1;
            }
            assert(s@.subrange(d as int, s@.len() as int) == s@.skip(d as int));
            string_of(out.as_slice())
        },
        None => string_of(s.as_slice()),
    }
}

} // verus!

verus! {

proof fn lemma_marks_head(s: Seq<char>)
    requires
        s.len() > 0,
        !is_space(s[0]),
    ensures
        marks_of(s).len() > 0,
        marks_of(s)[0] == s[0],
    decreases s.len(),
{
    if s.len() > 1 {
        lemma_marks_head(s.drop_last());
        assert(s.drop_last()[0] == s[0]);
    } else {
        assert(s.drop_last().len() == 0);
        assert(marks_of(s.drop_last()) =~= Seq::<char>::empty());
        assert(s.last() == s[0]);
    }
}

proof fn lemma_not_ruled(s: Seq<char>)
    requires
        s.len() > 0,
        s[0] != '-' && s[0] != '*' && s[0] != '_',
        !is_space(s[0]),
    ensures
        !ruled_of(s),
{
    lemma_marks_head(s);
}

proof fn lemma_no_number(s: Seq<char>)
    requires
        s.len() > 0,
        !is_digit(s[0]),
    ensures
        numbered_of(s) is None,
{
    assert(lead(s, Class::Digit) == 0);
    assert(s.skip(0) == s);
}

/// What `opened` gives opens no block: no heading, bullet, quote, fence,
/// break or numbered item.
pub proof fn opened_opens_nothing(s: Seq<char>)
    ensures
        !headed_of(opened_of(s)),
        !marked_of(opened_of(s)),
        !ruled_of(opened_of(s)),
        numbered_of(opened_of(s)) is None,
{
    let o = opened_of(s);
    if headed_of(s) || marked_of(s) || ruled_of(s) {
        assert(o[0] == '\\');
        assert(lead(o, Class::Is('#')) == 0);
        lemma_not_ruled(o);
        lemma_no_number(o);
    } else {
        match numbered_of(s) {
            Some((d, v)) => {
                let n = lead(s, Class::Digit);
                assert(n == d);
                crate::text::lemma_lead_le(s, Class::Digit);
                assert(s.skip(d as int)[0] == s[d as int]);
                assert(o[0] == s[0]);
                assert(is_digit(s[0]));
                assert(lead(o, Class::Is('#')) == 0);
                lemma_not_ruled(o);
                assert forall|j: int| 0 <= j < d implies is_digit(#[trigger] o[j]) by {
                    assert(o[j] == s[j]);
                    lemma_lead_digits(s, j);
                }
                assert(o[d as int] == '\\');
                lemma_lead_exact(o, d as int);
                assert(o.skip(d as int)[0] == '\\');
            },
            None => {},
        }
    }
}

proof fn lemma_lead_digits(s: Seq<char>, j: int)
    requires
        0 <= j < lead(s, Class::Digit),
    ensures
        is_digit(s[j]),
    decreases s.len(),
{
    crate::text::lemma_lead_le(s, Class::Digit);
    if j > 0 {
        lemma_lead_digits(s.drop_first(), j - 1);
        assert(s.drop_first()[j - 1] == s[j]);
    }
}

proof fn lemma_lead_exact(s: Seq<char>, d: int)
    requires
        0 <= d < s.len(),
        forall|j: int| 0 <= j < d ==> is_digit(#[trigger] s[j]),
        !is_digit(s[d]),
    ensures
        lead(s, Class::Digit) == d,
    decreases d,
{
    if d > 0 {
        assert forall|j: int| 0 <= j < d - 1 implies is_digit(#[trigger] s.drop_first()[j]) by {
            assert(s.drop_first()[j] == s[j + 1]);
        }
        assert(s.drop_first()[d - 1] == s[d]);
        lemma_lead_exact(s.drop_first(), d - 1);
        assert(is_digit(s[0]));
    }
}

/// The UTF-8 bytes of a character.
pub open spec fn utf8_of(c: char) -> Seq<u8> {
    let v = c as nat;
    if v < 0x80 {
        seq![v as u8]
    } else if v < 0x800 {
        seq![(0xc0 + v / 64) as u8, (0x80 + v % 64) as u8]
    } else if v < 0x10000 {
        seq![(0xe0 + v / 4096) as u8, (0x80 + (v / 64) % 64) as u8, (0x80 + v % 64) as u8]
    } else {
        seq![
            (0xf0 + v / 262144) as u8,
            (0x80 + (v / 4096) % 64) as u8,
            (0x80 + (v / 64) % 64) as u8,
            (0x80 + v % 64) as u8,
        ]
    }
}

/// The UTF-8 bytes of a text.
pub open spec fn utf8s(s: Seq<char>) -> Seq<u8>
    decreases s.len(),
{
    if s.len() == 0 {
        Seq::empty()
    } else {
        utf8s(s.drop_last()) + utf8_of(s.last())
    }
}

/// The value of an upper-case hexadecimal digit.
pub open spec fn hex_value(c: char) -> nat {
    if '0' <= c && c <= '9' {
        (c as nat - '0' as nat) as nat
    } else {
        (c as nat - 'A' as nat + 10) as nat
    }
}

/// The bytes a local link stands for: each `%` and the two digits after it
/// one byte, every other character its UTF-8 bytes.
pub open spec fn decoded(r: Seq<char>) -> Seq<u8>
    decreases r.len(),
{
    if r.len() == 0 {
        Seq::empty()
    } else if r[0] == '%' && r.len() >= 3 {
        seq![(hex_value(r[1]) * 16 + hex_value(r[2])) as u8] + decoded(r.skip(3))
    } else {
        utf8_of(r[0]) + decoded(r.skip(1))
    }
}

proof fn lemma_hex_back(d: nat)
    requires
        d < 16,
    ensures
        hex_value(hex_digit(d)) == d,
        hex_digit(d) != '%',
{
    let t = seq!['0', '1', '2', '3', '4', '5', '6', '7', '8', '9', 'A', 'B', 'C', 'D', 'E', 'F'];
    assert(hex_digit(d) == t[d as int]);
}

proof fn lemma_percent_back(b: nat, t: Seq<char>)
    requires
        b < 256,
    ensures
        decoded(percent(b) + t) == seq![b as u8] + decoded(t),
{
    lemma_hex_back(b / 16);
    lemma_hex_back(b % 16);
    let r = percent(b) + t;
    assert(r[0] == '%' && r[1] == hex_digit(b / 16) && r[2] == hex_digit(b % 16));
    assert(r.skip(3) =~= t);
    assert(hex_value(r[1]) * 16 + hex_value(r[2]) == b);
}

proof fn lemma_escaped_back(c: char, t: Seq<char>)
    ensures
        decoded(escaped_char(c) + t) == utf8_of(c) + decoded(t),
{
    let v = c as nat;
    if !unsafe_in_link(c) {
        let r = seq![c] + t;
        assert(r[0] == c && c != '%');
        assert(r.skip(1) =~= t);
    } else if v < 128 {
        lemma_percent_back(v, t);
    } else {
        assert(0x80 <= v <= 0x9f);
        lemma_percent_back(v, t);
        lemma_percent_back(0xc2, percent(v) + t);
        assert(percent(0xc2) + percent(v) + t =~= percent(0xc2) + (percent(v) + t));
        assert(v / 64 == 2 && v % 64 == v - 128);
        assert(utf8_of(c) =~= seq![0xc2u8, v as u8]);
        assert(seq![0xc2u8] + (seq![v as u8] + decoded(t)) =~= seq![0xc2u8, v as u8] + decoded(t));
    }
}

proof fn lemma_local_back(s: Seq<char>, t: Seq<char>)
    ensures
        decoded(local_of(s) + t) == utf8s(s) + decoded(t),
    decreases s.len(),
{
    if s.len() > 0 {
        let x = s.last();
        assert(local_of(s) + t =~= local_of(s.drop_last()) + (escaped_char(x) + t));
        lemma_local_back(s.drop_last(), escaped_char(x) + t);
        lemma_escaped_back(x, t);
        assert(utf8s(s.drop_last()) + (utf8_of(x) + decoded(t)) =~= utf8s(s) + decoded(t));
    } else {
        assert(local_of(s) + t =~= t);
    }
}

proof fn lemma_percent_marks(b: nat)
    requires
        b < 256,
    ensures
        forall|j: int| 0 <= j < 3 && unsafe_in_link(#[trigger] percent(b)[j]) ==> j == 0,
        percent(b)[0] == '%',
{
    let t = seq!['0', '1', '2', '3', '4', '5', '6', '7', '8', '9', 'A', 'B', 'C', 'D', 'E', 'F'];
    assert(hex_digit(b / 16) == t[(b / 16) as int]);
    assert(hex_digit(b % 16) == t[(b % 16) as int]);
    assert(!unsafe_in_link(t[(b / 16) as int]));
    assert(!unsafe_in_link(t[(b % 16) as int]));
}

proof fn lemma_escape_marks(c: char)
    ensures
        forall|j: int| 0 <= j < escaped_char(c).len() && unsafe_in_link(#[trigger] escaped_char(c)[j]) ==> escaped_char(c)[j] == '%',
{
    let v = c as nat;
    let e = escaped_char(c);
    if unsafe_in_link(c) {
        if v < 128 {
            lemma_percent_marks(v);
        } else {
            assert(v <= 0x9f);
            lemma_percent_marks(0xc2);
            lemma_percent_marks(v);
            assert forall|j: int| 0 <= j < e.len() && unsafe_in_link(#[trigger] e[j]) implies e[j] == '%' by {
                if j < 3 {
                    assert(e[j] == percent(0xc2)[j]);
                } else {
                    assert(e[j] == percent(v)[j - 3]);
                }
            }
        }
    }
}

proof fn lemma_local_marks(s: Seq<char>)
    ensures
        forall|i: int| 0 <= i < local_of(s).len() && unsafe_in_link(#[trigger] local_of(s)[i]) ==> local_of(s)[i] == '%',
    decreases s.len(),
{
    if s.len() > 0 {
        lemma_local_marks(s.drop_last());
        let a = local_of(s.drop_last());
        let e = escaped_char(s.last());
        lemma_escape_marks(s.last());
        assert(local_of(s) == a + e);
        assert forall|i: int| 0 <= i < local_of(s).len() && unsafe_in_link(#[trigger] local_of(s)[i]) implies local_of(s)[i] == '%' by {
            if i < a.len() {
                assert(local_of(s)[i] == a[i]);
            } else {
                assert(local_of(s)[i] == e[i - a.len()]);
            }
        }
    }
}

/// A local link holds no character that a link cannot hold bare but the `%`
/// of its escapes, and reading each escape back as a byte gives the UTF-8
/// bytes of the path.
pub proof fn local_reads_back(path: Seq<char>)
    ensures
        forall|i: int| 0 <= i < local_of(path).len() && unsafe_in_link(#[trigger] local_of(path)[i]) ==> local_of(path)[i] == '%',
        decoded(local_of(path)) == utf8s(path),
{
    lemma_local_marks(path);
    lemma_local_back(path, Seq::empty());
    assert(local_of(path) + Seq::<char>::empty() =~= local_of(path));
    assert(utf8s(path) + decoded(Seq::<char>::empty()) =~= utf8s(path));
}

} // verus!
