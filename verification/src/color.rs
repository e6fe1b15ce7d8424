//! Color readouts and the inspector's editable color fields.
//!
//! Storage is 8-bit sRGB. Hex and RGB readouts are produced and parsed here;
//! the polar spaces (HSL, HSB, OKLCH) are computed in floating point by the
//! caller, which hands over the already-rounded channel values.

use vstd::prelude::*;
use vstd::string::StringExecFns;

verus! {

/// Which color space the inspector readout and edit fields show.
#[derive(Clone, Copy, Debug, PartialEq, Eq, Structural)]
pub enum ColorSpace {
    Hex,
    Rgb,
    Hsl,
    Hsb,
    Oklch,
}

impl Default for ColorSpace {
    fn default() -> (r: Self)
        ensures
            r == ColorSpace::Hex,
    {
        ColorSpace::Hex
    }
}

// ---------------------------------------------------------------------------
// Digits
// ---------------------------------------------------------------------------

/// The decimal digit character for `d < 10`.
pub open spec fn dec_char(d: int) -> char {
    if d == 0 {
        '0'
    } else if d == 1 {
        '1'
    } else if d == 2 {
        '2'
    } else if d == 3 {
        '3'
    } else if d == 4 {
        '4'
    } else if d == 5 {
        '5'
    } else if d == 6 {
        '6'
    } else if d == 7 {
        '7'
    } else if d == 8 {
        '8'
    } else {
        '9'
    }
}

/// The upper-case hexadecimal digit character for `d < 16`.
pub open spec fn hex_char(d: int) -> char {
    if d < 10 {
        dec_char(d)
    } else if d == 10 {
        'A'
    } else if d == 11 {
        'B'
    } else if d == 12 {
        'C'
    } else if d == 13 {
        'D'
    } else if d == 14 {
        'E'
    } else {
        'F'
    }
}

/// Decimal digits of `n >= 0`, most significant first, no leading zeros.
pub open spec fn nat_digits(n: nat) -> Seq<char>
    decreases n,
{
    if n < 10 {
        seq![dec_char(n as int)]
    } else {
        nat_digits(n / 10).push(dec_char((n % 10) as int))
    }
}

/// `n` in decimal, with a leading `-` when negative.
pub open spec fn int_text(n: int) -> Seq<char> {
    if n < 0 {
        seq!['-'] + nat_digits((-n) as nat)
    } else {
        nat_digits(n as nat)
    }
}

/// A byte as two upper-case hexadecimal digits.
pub open spec fn hex2(b: u8) -> Seq<char> {
    seq![hex_char((b / 16) as int), hex_char((b % 16) as int)]
}

fn hex_digit_str(d: u8) -> (r: &'static str)
    requires
        d < 16,
    ensures
        r@ == seq![hex_char(d as int)],
{
    match d {
        0 => {
            proof { reveal_strlit("0"); }
            "0"
        },
        1 => {
            proof { reveal_strlit("1"); }
            "1"
        },
        2 => {
            proof { reveal_strlit("2"); }
            "2"
        },
        3 => {
            proof { reveal_strlit("3"); }
            "3"
        },
        4 => {
            proof { reveal_strlit("4"); }
            "4"
        },
        5 => {
            proof { reveal_strlit("5"); }
            "5"
        },
        6 => {
            proof { reveal_strlit("6"); }
            "6"
        },
        7 => {
            proof { reveal_strlit("7"); }
            "7"
        },
        8 => {
            proof { reveal_strlit("8"); }
            "8"
        },
        9 => {
            proof { reveal_strlit("9"); }
            "9"
        },
        10 => {
            proof { reveal_strlit("A"); }
            "A"
        },
        11 => {
            proof { reveal_strlit("B"); }
            "B"
        },
        12 => {
            proof { reveal_strlit("C"); }
            "C"
        },
        13 => {
            proof { reveal_strlit("D"); }
            "D"
        },
        14 => {
            proof { reveal_strlit("E"); }
            "E"
        },
        _ => {
            proof { reveal_strlit("F"); }
            "F"
        },
    }
}

/// Appends the decimal digits of `n`.
pub(crate) fn push_nat(s: &mut String, n: u32)
    ensures
        final(s)@ == old(s)@ + nat_digits(n as nat),
    decreases n,
{
    if n >= 10 {
        push_nat(s, n / 10);
    }
    let d = (n % 10) as u8;
    s.append(hex_digit_str(d));
    proof {
        assert(hex_char(d as int) == dec_char((n as nat % 10) as int));
        if n >= 10 {
            assert(nat_digits(n as nat) == nat_digits((n / 10) as nat).push(dec_char((n % 10) as int)));
        }
    }
}

/// Appends the decimal digits of `n`.
pub(crate) fn push_nat64(s: &mut String, n: u64)
    ensures
        final(s)@ == old(s)@ + nat_digits(n as nat),
    decreases n,
{
    if n >= 10 {
        push_nat64(s, n / 10);
    }
    let d = (n % 10) as u8;
    s.append(hex_digit_str(d));
    proof {
        assert(hex_char(d as int) == dec_char((n as nat % 10) as int));
        if n >= 10 {
            assert(nat_digits(n as nat) == nat_digits((n / 10) as nat).push(dec_char((n % 10) as int)));
        }
    }
}

/// Appends `n` in decimal.
pub(crate) fn push_int(s: &mut String, n: i32)
    ensures
        final(s)@ == old(s)@ + int_text(n as int),
{
    if n < 0 {
        proof { reveal_strlit("-"); }
        s.append("-");
        let m: u32 = if n == i32::MIN { 0x8000_0000u32 } else { (-n) as u32 };
        push_nat(s, m);
        proof {
            assert(s@ =~= old(s)@ + int_text(n as int));
        }
    } else {
        push_nat(s, n as u32);
    }
}


/// Appends `b` as two upper-case hexadecimal digits.
fn push_hex2(s: &mut String, b: u8)
    ensures
        final(s)@ == old(s)@ + hex2(b),
{
    s.append(hex_digit_str(b / 16));
    s.append(hex_digit_str(b % 16));
    proof {
        assert(s@ =~= old(s)@ + hex2(b));
    }
}

/// `n` tenths as a decimal with one fractional digit (`-0.5`, `12.0`).
pub open spec fn tenths_text(n: int) -> Seq<char> {
    let m = if n < 0 { -n } else { n };
    (if n < 0 { seq!['-'] } else { Seq::empty() }) + nat_digits((m / 10) as nat) + seq!['.', dec_char(m % 10)]
}

/// `n` thousandths as a decimal with three fractional digits (`0.125`).
pub open spec fn milli_text(n: int) -> Seq<char> {
    let m = if n < 0 { -n } else { n };
    (if n < 0 { seq!['-'] } else { Seq::empty() }) + nat_digits((m / 1000) as nat) + seq![
        '.',
        dec_char((m / 100) % 10),
        dec_char((m / 10) % 10),
        dec_char(m % 10),
    ]
}

/// Appends `n` thousandths with `frac` fractional digits (1 or 3).
fn push_fixed(s: &mut String, n: i32, frac: u32)
    requires
        frac == 1 || frac == 3,
    ensures
        frac == 1 ==> final(s)@ == old(s)@ + tenths_text(n as int),
        frac == 3 ==> final(s)@ == old(s)@ + milli_text(n as int),
{
    let m: u32 = if n == i32::MIN { 0x8000_0000u32 } else if n < 0 { (-n) as u32 } else { n as u32 };
    if n < 0 {
        proof { reveal_strlit("-"); }
        s.append("-");
    }
    let ghost s1 = s@;
    proof { reveal_strlit("."); }
    if frac == 1 {
        push_nat(s, m / 10);
        s.append(".");
        s.append(hex_digit_str((m % 10) as u8));
        proof {
            assert(s@ =~= old(s)@ + tenths_text(n as int));
        }
    } else {
        push_nat(s, m / 1000);
        s.append(".");
        s.append(hex_digit_str(((m / 100) % 10) as u8));
        s.append(hex_digit_str(((m / 10) % 10) as u8));
        s.append(hex_digit_str((m % 10) as u8));
        proof {
            assert(s@ =~= old(s)@ + milli_text(n as int));
        }
    }
}

/// `#RRGGBB`, upper-case.
pub open spec fn hex_text(rgb: [u8; 3]) -> Seq<char> {
    seq!['#'] + hex2(rgb@[0]) + hex2(rgb@[1]) + hex2(rgb@[2])
}

/// The three channels in decimal, separated by single spaces.
pub open spec fn rgb_text(rgb: [u8; 3]) -> Seq<char> {
    int_text(rgb@[0] as int) + seq![' '] + int_text(rgb@[1] as int) + seq![' '] + int_text(
        rgb@[2] as int,
    )
}

/// `"{a}° {b}% {c}%"`: a hue, saturation and lightness/brightness readout.
pub open spec fn polar_text(r: [i32; 3]) -> Seq<char> {
    int_text(r@[0] as int) + seq!['°', ' '] + int_text(r@[1] as int) + seq!['%', ' '] + int_text(
        r@[2] as int,
    ) + seq!['%']
}

/// `"{l}% {c} {h}°"` with the chroma `c` given in thousandths.
pub open spec fn oklch_text(r: [i32; 3]) -> Seq<char> {
    int_text(r@[0] as int) + seq!['%', ' '] + milli_text(r@[1] as int) + seq![' '] + int_text(
        r@[2] as int,
    ) + seq!['°']
}

impl ColorSpace {
    pub open spec fn spec_label(self) -> Seq<char> {
        match self {
            ColorSpace::Hex => "Hex"@,
            ColorSpace::Rgb => "RGB"@,
            ColorSpace::Hsl => "HSL"@,
            ColorSpace::Hsb => "HSB"@,
            ColorSpace::Oklch => "OKLCH"@,
        }
    }

    /// Short name of the space, as the space selector shows it.
    pub fn label(self) -> (r: &'static str)
        ensures
            r@ == self.spec_label(),
    {
        match self {
            ColorSpace::Hex => "Hex",
            ColorSpace::Rgb => "RGB",
            ColorSpace::Hsl => "HSL",
            ColorSpace::Hsb => "HSB",
            ColorSpace::Oklch => "OKLCH",
        }
    }

    /// One-line readout of `rgb` in this space. `polar` carries what the
    /// floating-point conversion produced for the polar spaces, rounded to the
    /// digits shown: `(hue, saturation, lightness/brightness)` in whole units
    /// for HSL and HSB, `(L %, chroma in thousandths, hue)` for OKLCH. It is
    /// not read for Hex and RGB.
    pub fn format(self, rgb: [u8; 3], polar: [i32; 3]) -> (r: String)
        ensures
            r@ == match self {
                ColorSpace::Hex => hex_text(rgb),
                ColorSpace::Rgb => rgb_text(rgb),
                ColorSpace::Hsl | ColorSpace::Hsb => polar_text(polar),
                ColorSpace::Oklch => oklch_text(polar),
            },
    {
        let mut s = String::new();
        proof {
            reveal_strlit("#");
            reveal_strlit(" ");
            reveal_strlit("° ");
            reveal_strlit("% ");
            reveal_strlit("%");
            reveal_strlit("°");
        }
        match self {
            ColorSpace::Hex => {
                s.append("#");
                push_hex2(&mut s, rgb[0]);
                push_hex2(&mut s, rgb[1]);
                push_hex2(&mut s, rgb[2]);
                proof {
                    assert(s@ =~= hex_text(rgb));
                }
            },
            ColorSpace::Rgb => {
                push_int(&mut s, rgb[0] as i32);
                s.append(" ");
                push_int(&mut s, rgb[1] as i32);
                s.append(" ");
                push_int(&mut s, rgb[2] as i32);
                proof {
                    assert(s@ =~= rgb_text(rgb));
                }
            },
            ColorSpace::Hsl | ColorSpace::Hsb => {
                push_int(&mut s, polar[0]);
                s.append("° ");
                push_int(&mut s, polar[1]);
                s.append("% ");
                push_int(&mut s, polar[2]);
                s.append("%");
                proof {
                    assert(s@ =~= polar_text(polar));
                }
            },
            ColorSpace::Oklch => {
                push_int(&mut s, polar[0]);
                s.append("% ");
                push_fixed(&mut s, polar[1], 3);
                s.append(" ");
                push_int(&mut s, polar[2]);
                s.append("°");
                proof {
                    assert(s@ =~= oklch_text(polar));
                }
            },
        }
        s
    }
}

// ---------------------------------------------------------------------------
// Parsing
// ---------------------------------------------------------------------------

/// Unicode `White_Space`, the characters `str::trim` removes.
pub open spec fn is_white_space(c: char) -> bool {
    ||| '\u{9}' <= c <= '\u{d}'
    ||| c == ' '
    ||| c == '\u{85}'
    ||| c == '\u{a0}'
    ||| c == '\u{1680}'
    ||| '\u{2000}' <= c <= '\u{200a}'
    ||| c == '\u{2028}'
    ||| c == '\u{2029}'
    ||| c == '\u{202f}'
    ||| c == '\u{205f}'
    ||| c == '\u{3000}'
}

/// `s` without its leading white space.
pub open spec fn trim_front(s: Seq<char>) -> Seq<char>
    decreases s.len(),
{
    if s.len() > 0 && is_white_space(s[0]) {
        trim_front(s.drop_first())
    } else {
        s
    }
}

/// `s` without its trailing white space.
pub open spec fn trim_back(s: Seq<char>) -> Seq<char>
    decreases s.len(),
{
    if s.len() > 0 && is_white_space(s.last()) {
        trim_back(s.drop_last())
    } else {
        s
    }
}

/// `s` without leading and trailing white space.
pub open spec fn trim_ws(s: Seq<char>) -> Seq<char> {
    trim_back(trim_front(s))
}

fn is_white_space_char(c: char) -> (r: bool)
    ensures
        r == is_white_space(c),
{
    ('\u{9}' <= c && c <= '\u{d}') || c == ' ' || c == '\u{85}' || c == '\u{a0}' || c == '\u{1680}' || ('\u{2000}'
        <= c && c <= '\u{200a}') || c == '\u{2028}' || c == '\u{2029}' || c == '\u{202f}' || c == '\u{205f}' || c
        == '\u{3000}'
}

/// Trimming the front skips the leading white space up to `a`.
proof fn lemma_trim_front_skip(s: Seq<char>, a: int)
    requires
        0 <= a <= s.len(),
        forall|i: int| 0 <= i < a ==> is_white_space(#[trigger] s[i]),
    ensures
        trim_front(s) == trim_front(s.subrange(a, s.len() as int)),
    decreases a,
{
    if a > 0 {
        lemma_trim_front_skip(s, a - 1);
        let t = s.subrange(a - 1, s.len() as int);
        assert(t.drop_first() =~= s.subrange(a, s.len() as int));
        assert(is_white_space(t[0]));
    } else {
        assert(s.subrange(0, s.len() as int) =~= s);
    }
}

/// Trimming the back skips the trailing white space from `b` on.
proof fn lemma_trim_back_skip(s: Seq<char>, b: int)
    requires
        0 <= b <= s.len(),
        forall|i: int| b <= i < s.len() ==> is_white_space(#[trigger] s[i]),
    ensures
        trim_back(s) == trim_back(s.subrange(0, b)),
    decreases s.len() - b,
{
    if b < s.len() {
        lemma_trim_back_skip(s, b + 1);
        let t = s.subrange(0, b + 1);
        assert(t.drop_last() =~= s.subrange(0, b));
        assert(is_white_space(t.last()));
    } else {
        assert(s.subrange(0, s.len() as int) =~= s);
    }
}

/// `s` between its leading and trailing white space, as `str::trim` gives
/// it.
pub fn trim_str(s: &str) -> (r: &str)
    ensures
        r@ == trim_ws(s@),
{
    let n = s.unicode_len();
    let mut a: usize = 0;
    while a < n && is_white_space_char(s.get_char(a))
        invariant
            n == s@.len(),
            a <= n,
            forall|i: int| 0 <= i < a ==> is_white_space(#[trigger] s@[i]),
        decreases n - a,
    {
        a = a + 1;
    }
    let mut b: usize = n;
    while b > a && is_white_space_char(s.get_char(b - 1))
        invariant
            n == s@.len(),
            a <= b <= n,
            forall|i: int| b <= i < n ==> is_white_space(#[trigger] s@[i]),
        decreases b - a,
    {
        b = b - 1;
    }
    proof {
        lemma_trim_front_skip(s@, a as int);
        let t = s@.subrange(a as int, n as int);
        if a < n {
            assert(!is_white_space(t[0]));
        }
        assert(trim_front(t) == t);
        assert forall|i: int| b - a <= i < t.len() implies is_white_space(#[trigger] t[i]) by {
            assert(t[i] == s@[a + i]);
        }
        lemma_trim_back_skip(t, b - a);
        let u = t.subrange(0, b - a);
        if b > a {
            assert(u.last() == s@[b - 1]);
        }
        assert(trim_back(u) == u);
        assert(u =~= s@.subrange(a as int, b as int));
    }
    s.substring_char(a, b)
}

pub open spec fn is_dec_digit(c: char) -> bool {
    '0' <= c <= '9'
}

pub open spec fn is_hex_digit(c: char) -> bool {
    ||| '0' <= c <= '9'
    ||| 'A' <= c <= 'F'
    ||| 'a' <= c <= 'f'
}

/// Value of a hexadecimal digit.
pub open spec fn hex_val(c: char) -> int {
    if c <= '9' {
        c as int - '0' as int
    } else if c <= 'F' {
        c as int - 'A' as int + 10
    } else {
        c as int - 'a' as int + 10
    }
}

/// The six-digit part of a hex color: `s` trimmed, one leading `#` dropped.
pub open spec fn hex_body(s: Seq<char>) -> Seq<char> {
    let t = trim_ws(s);
    if t.len() > 0 && t[0] == '#' {
        t.drop_first()
    } else {
        t
    }
}

/// `s` is a hex color: six hexadecimal digits after trimming and an optional
/// leading `#`.
pub open spec fn is_hex_color(s: Seq<char>) -> bool {
    let b = hex_body(s);
    b.len() == 6 && forall|i: int| 0 <= i < 6 ==> is_hex_digit(#[trigger] b[i])
}

/// Channel `k` (0 = red) of a hex color.
pub open spec fn hex_channel(s: Seq<char>, k: int) -> int {
    let b = hex_body(s);
    hex_val(b[2 * k]) * 16 + hex_val(b[2 * k + 1])
}

fn hex_val_byte(b: u8) -> (v: u8)
    requires
        is_hex_digit(b as char),
    ensures
        v as int == hex_val(b as char),
        v < 16,
{
    if b <= 57 {
        b - 48
    } else if b <= 70 {
        b - 55
    } else {
        b - 87
    }
}

/// Parses `#RRGGBB` (the `#` optional, digits in either case, surrounding
/// white space ignored).
pub fn parse_hex(s: &str) -> (r: Option<[u8; 3]>)
    ensures
        r is Some <==> is_hex_color(s@),
        r matches Some(c) ==> c@[0] == hex_channel(s@, 0) && c@[1] == hex_channel(s@, 1)
            && c@[2] == hex_channel(s@, 2),
{
    let t = trim_str(s);
    if !t.is_ascii() {
        proof {
            let b = hex_body(s@);
            let k = choose|k: int| 0 <= k < t@.len() && !('\0' <= #[trigger] t@[k] <= '\u{7f}');
            if b.len() == 6 && forall|i: int| 0 <= i < 6 ==> is_hex_digit(#[trigger] b[i]) {
                if t@.len() > 0 && t@[0] == '#' {
                    assert(b[k - 1] == t@[k]);
                    assert(is_hex_digit(b[k - 1]));
                } else {
                    assert(b[k] == t@[k]);
                    assert(is_hex_digit(b[k]));
                }
            }
        }
        return None;
    }
    let bytes = t.as_bytes();
    proof {
        vstd::string::is_ascii_spec_bytes(t);
    }
    let off: usize = if bytes.len() > 0 && bytes[0] == 35 { 1 } else { 0 };
    let ghost body = hex_body(s@);
    proof {
        assert(bytes@.len() == t@.len());
        if bytes@.len() > 0 {
            assert(bytes@[0] == t@[0] as u8);
        }
        assert(off == 1 <==> t@.len() > 0 && t@[0] == '#');
        assert(body.len() == t@.len() - off);
        assert forall|i: int| 0 <= i < body.len() implies body[i] == t@[i + off] && bytes@[i + off] as char == body[i] by {
            assert(bytes@[i + off] == t@[i + off] as u8);
        }
    }
    if bytes.len() - off != 6 {
        return None;
    }
    let mut i: usize = 0;
    while i < 6
        invariant
            bytes.len() == off + 6,
            body == hex_body(s@),
            body.len() == 6,
            i <= 6,
            forall|j: int| 0 <= j < body.len() ==> bytes@[j + off] as char == #[trigger] body[j],
            forall|j: int| 0 <= j < i ==> is_hex_digit(#[trigger] body[j]),
        decreases 6 - i,
    {
        let b = bytes[i + off];
        assert(b as char == body[i as int]);
        assert(is_hex_digit(b as char) <==> ((48 <= b && b <= 57) || (65 <= b && b <= 70) || (97
            <= b && b <= 102)));
        if !((48 <= b && b <= 57) || (65 <= b && b <= 70) || (97 <= b && b <= 102)) {
            return None;
        }
        i = i + 1;
    }
    assert(is_hex_digit(body[0]) && is_hex_digit(body[1]) && is_hex_digit(body[2]));
    assert(is_hex_digit(body[3]) && is_hex_digit(body[4]) && is_hex_digit(body[5]));
    let r = hex_val_byte(bytes[off]) * 16 + hex_val_byte(bytes[off + 1]);
    let g = hex_val_byte(bytes[off + 2]) * 16 + hex_val_byte(bytes[off + 3]);
    let b = hex_val_byte(bytes[off + 4]) * 16 + hex_val_byte(bytes[off + 5]);
    Some([r, g, b])
}

/// Value of a run of decimal digits.
pub open spec fn dec_value(d: Seq<char>) -> int
    decreases d.len(),
{
    if d.len() == 0 {
        0
    } else {
        dec_value(d.drop_last()) * 10 + (d.last() as int - '0' as int)
    }
}

/// The digits of an unsigned integer literal: `t` without one leading `+`.
pub open spec fn unsigned_digits(t: Seq<char>) -> Seq<char> {
    if t.len() > 0 && t[0] == '+' {
        t.drop_first()
    } else {
        t
    }
}

/// `t` is what `u8::from_str` accepts: an optional `+`, then one or more
/// decimal digits whose value is at most 255.
pub open spec fn is_u8_text(t: Seq<char>) -> bool {
    let d = unsigned_digits(t);
    &&& d.len() > 0
    &&& forall|i: int| 0 <= i < d.len() ==> is_dec_digit(#[trigger] d[i])
    &&& dec_value(d) <= 255
}

proof fn lemma_dec_value_prefix(d: Seq<char>, k: int)
    requires
        0 <= k <= d.len(),
        forall|i: int| 0 <= i < d.len() ==> is_dec_digit(#[trigger] d[i]),
    ensures
        dec_value(d.take(k)) <= dec_value(d),
        dec_value(d.take(k)) >= 0,
    decreases d.len(),
{
    if d.len() > 0 {
        let p = d.drop_last();
        assert forall|i: int| 0 <= i < p.len() implies is_dec_digit(#[trigger] p[i]) by {
            assert(p[i] == d[i]);
        }
        if k == d.len() {
            assert(d.take(k) =~= d);
            lemma_dec_value_prefix(p, k - 1);
            assert(p.take(k - 1) =~= p);
        } else {
            lemma_dec_value_prefix(p, k);
            assert(p.take(k) =~= d.take(k));
            lemma_dec_value_prefix(p, p.len() as int);
            assert(p.take(p.len() as int) =~= p);
            assert(is_dec_digit(d.last()));
        }
    } else {
        assert(d.take(k) =~= d);
    }
}

/// `u8::from_str`, the unsigned-integer grammar of the std documentation:
/// an optional `+` followed by decimal digits, in range.
fn parse_u8(t: &str) -> (r: Option<u8>)
    ensures
        r is Some <==> is_u8_text(t@),
        r matches Some(v) ==> v as int == dec_value(unsigned_digits(t@)),
{
    let ghost d = unsigned_digits(t@);
    if !t.is_ascii() {
        proof {
            let k = choose|k: int| 0 <= k < t@.len() && !('\0' <= #[trigger] t@[k] <= '\u{7f}');
            if t@.len() > 0 && t@[0] == '+' {
                assert(d[k - 1] == t@[k]);
            } else {
                assert(d[k] == t@[k]);
            }
        }
        return None;
    }
    let bytes = t.as_bytes();
    proof {
        vstd::string::is_ascii_spec_bytes(t);
        assert(bytes@.len() == t@.len());
        if bytes@.len() > 0 {
            assert(bytes@[0] == t@[0] as u8);
        }
    }
    let off: usize = if bytes.len() > 0 && bytes[0] == 43 { 1 } else { 0 };
    proof {
        assert(d.len() == t@.len() - off);
        assert forall|i: int| 0 <= i < d.len() implies bytes@[i + off] as char == #[trigger] d[i] by {
            assert(bytes@[i + off] == t@[i + off] as u8);
        }
    }
    if bytes.len() == off {
        return None;
    }
    let mut v: u32 = 0;
    let mut i: usize = off;
    while i < bytes.len()
        invariant
            d == unsigned_digits(t@),
            off <= i <= bytes.len(),
            bytes.len() == off + d.len(),
            forall|j: int| 0 <= j < d.len() ==> bytes@[j + off] as char == #[trigger] d[j],
            forall|j: int| 0 <= j < i - off ==> is_dec_digit(#[trigger] d[j]),
            v == dec_value(d.take(i - off)),
            v <= 255,
        decreases bytes.len() - i,
    {
        let b = bytes[i];
        let ghost k = i - off;
        assert(b as char == d[k]);
        assert(d.take(k + 1).drop_last() =~= d.take(k));
        if !(48 <= b && b <= 57) {
            proof {
                assert(!is_dec_digit(d[k]));
            }
            return None;
        }
        let nv = v * 10 + (b - 48) as u32;
        if nv > 255 {
            proof {
                assert(nv == dec_value(d.take(k + 1)));
                if forall|j: int| 0 <= j < d.len() ==> is_dec_digit(#[trigger] d[j]) {
                    lemma_dec_value_prefix(d, k + 1);
                }
            }
            return None;
        }
        v = nv;
        i = i + 1;
    }
    proof {
        assert(d.take(d.len() as int) =~= d);
    }
    Some(v as u8)
}

// ---------------------------------------------------------------------------
// Edit buffer
// ---------------------------------------------------------------------------

/// String-backed scratch fields for the inspector's editable color inputs:
/// one hex string in Hex mode, one field per channel otherwise. `source` and
/// `space` record what the fields were last filled from.
pub struct ColorEditBuffer {
    pub source: [u8; 4],
    pub space: ColorSpace,
    pub fields: [String; 3],
}

impl Default for ColorEditBuffer {
    fn default() -> (r: Self)
        ensures
            r.source@ == seq![0u8, 0u8, 0u8, 0u8],
            r.space == ColorSpace::Hex,
            r.fields@[0]@.len() == 0 && r.fields@[1]@.len() == 0 && r.fields@[2]@.len() == 0,
    {
        ColorEditBuffer {
            source: [0, 0, 0, 0],
            space: ColorSpace::Hex,
            fields: [String::new(), String::new(), String::new()],
        }
    }
}

/// Text of field `k` after filling from `rgb` in `space`; `polar` is the
/// floating-point readout rounded to the digits shown: `(hue, saturation
/// tenths, lightness/brightness tenths)` for HSL and HSB, `(L tenths, chroma
/// thousandths, hue)` for OKLCH.
pub open spec fn field_text(space: ColorSpace, rgb: [u8; 3], polar: [i32; 3], k: int) -> Seq<char> {
    match space {
        ColorSpace::Hex => if k == 0 { hex_text(rgb) } else { Seq::empty() },
        ColorSpace::Rgb => int_text(rgb@[k] as int),
        ColorSpace::Hsl | ColorSpace::Hsb => if k == 0 {
            int_text(polar@[0] as int)
        } else {
            tenths_text(polar@[k] as int)
        },
        ColorSpace::Oklch => if k == 0 {
            tenths_text(polar@[0] as int)
        } else if k == 1 {
            milli_text(polar@[1] as int)
        } else {
            int_text(polar@[2] as int)
        },
    }
}

fn int_string(n: i32) -> (s: String)
    ensures
        s@ == int_text(n as int),
{
    let mut s = String::new();
    push_int(&mut s, n);
    s
}

fn fixed_string(n: i32, frac: u32) -> (s: String)
    requires
        frac == 1 || frac == 3,
    ensures
        frac == 1 ==> s@ == tenths_text(n as int),
        frac == 3 ==> s@ == milli_text(n as int),
{
    let mut s = String::new();
    push_fixed(&mut s, n, frac);
    proof {
        assert(s@ =~= Seq::<char>::empty() + s@);
    }
    s
}

impl ColorEditBuffer {
    /// Refills the fields from `rgba` in `space` (see [`field_text`] for
    /// what `polar` carries).
    pub fn populate(&mut self, rgba: [u8; 4], space: ColorSpace, polar: [i32; 3])
        ensures
            final(self).source == rgba,
            final(self).space == space,
            forall|k: int|
                0 <= k < 3 ==> (#[trigger] final(self).fields@[k])@ == field_text(
                    space,
                    [rgba@[0], rgba@[1], rgba@[2]],
                    polar,
                    k,
                ),
    {
        self.source = rgba;
        self.space = space;
        let rgb = [rgba[0], rgba[1], rgba[2]];
        let f = match space {
            ColorSpace::Hex => [space.format(rgb, polar), String::new(), String::new()],
            ColorSpace::Rgb => [
                int_string(rgb[0] as i32),
                int_string(rgb[1] as i32),
                int_string(rgb[2] as i32),
            ],
            ColorSpace::Hsl | ColorSpace::Hsb => [
                int_string(polar[0]),
                fixed_string(polar[1], 1),
                fixed_string(polar[2], 1),
            ],
            ColorSpace::Oklch => [
                fixed_string(polar[0], 1),
                fixed_string(polar[1], 3),
                int_string(polar[2]),
            ],
        };
        self.fields = f;
        proof {
            assert(rgb == [rgba@[0], rgba@[1], rgba@[2]]);
        }
    }

    /// The color the fields describe, for the Hex and RGB spaces (the polar
    /// spaces are converted back in floating point by the caller). `None`
    /// when a field is malformed: Hex needs a hex color, RGB three `u8`
    /// literals (surrounding white space ignored).
    pub fn commit(&self) -> (r: Option<[u8; 3]>)
        requires
            self.space == ColorSpace::Hex || self.space == ColorSpace::Rgb,
        ensures
            self.space == ColorSpace::Hex ==> {
                let s = self.fields@[0]@;
                &&& r is Some <==> is_hex_color(s)
                &&& r matches Some(c) ==> c@[0] == hex_channel(s, 0) && c@[1] == hex_channel(s, 1)
                    && c@[2] == hex_channel(s, 2)
            },
            self.space == ColorSpace::Rgb ==> {
                &&& r is Some <==> forall|k: int|
                    0 <= k < 3 ==> is_u8_text(trim_ws(#[trigger] self.fields@[k]@))
                &&& r matches Some(c) ==> forall|k: int|
                    0 <= k < 3 ==> c@[k] == dec_value(unsigned_digits(trim_ws(#[trigger] self.fields@[k]@)))
            },
    {
        if self.space == ColorSpace::Hex {
            return parse_hex(self.fields[0].as_str());
        }
        let r = parse_u8(trim_str(self.fields[0].as_str()));
        let g = parse_u8(trim_str(self.fields[1].as_str()));
        let b = parse_u8(trim_str(self.fields[2].as_str()));
        match (r, g, b) {
            (Some(r), Some(g), Some(b)) => {
                let c = [r, g, b];
                proof {
                    assert forall|k: int| 0 <= k < 3 implies c@[k] == dec_value(
                        unsigned_digits(trim_ws(#[trigger] self.fields@[k]@)),
                    ) by {
                        if k == 0 {
                        } else if k == 1 {
                        } else {
                        }
                    }
                }
                Some(c)
            },
            _ => {
                proof {
                    if r is None {
                        assert(!is_u8_text(trim_ws(self.fields@[0]@)));
                    } else if g is None {
                        assert(!is_u8_text(trim_ws(self.fields@[1]@)));
                    } else {
                        assert(!is_u8_text(trim_ws(self.fields@[2]@)));
                    }
                }
                None
            },
        }
    }
}

proof fn lemma_dec_char_value(d: int)
    requires
        0 <= d < 10,
    ensures
        dec_char(d) as int - '0' as int == d,
        is_dec_digit(dec_char(d)),
{
    assert('0' as int == 48 && '1' as int == 49 && '2' as int == 50 && '3' as int == 51 && '4' as int == 52 && '5' as int
        == 53 && '6' as int == 54 && '7' as int == 55 && '8' as int == 56 && '9' as int == 57);
}

/// A number's own decimal digits read back as the number.
proof fn lemma_digits_value(n: nat)
    ensures
        nat_digits(n).len() > 0,
        forall|i: int| 0 <= i < nat_digits(n).len() ==> is_dec_digit(#[trigger] nat_digits(n)[i]),
        dec_value(nat_digits(n)) == n,
    decreases n,
{
    lemma_dec_char_value((n % 10) as int);
    if n < 10 {
        let e = nat_digits(n);
        assert(e == seq![dec_char(n as int)]);
        assert(e.drop_last() =~= Seq::<char>::empty());
        assert(dec_value(e) == dec_value(e.drop_last()) * 10 + (e.last() as int - '0' as int));
        assert(dec_value(Seq::<char>::empty()) == 0);
    }
    if n >= 10 {
        lemma_digits_value(n / 10);
        let d = nat_digits(n / 10);
        let e = nat_digits(n);
        assert(e.drop_last() =~= d);
        assert(e.last() == dec_char((n % 10) as int));
        assert(dec_value(e) == dec_value(d) * 10 + (e.last() as int - '0' as int));
        assert(n == (n / 10) * 10 + n % 10);
        assert forall|i: int| 0 <= i < e.len() implies is_dec_digit(#[trigger] e[i]) by {
            if i < d.len() {
                assert(e[i] == d[i]);
            }
        }
    }
}

/// No white space at either end of `s`, so trimming keeps it whole.
proof fn lemma_trim_none(s: Seq<char>)
    requires
        s.len() > 0,
        !is_white_space(s[0]),
        !is_white_space(s.last()),
    ensures
        trim_ws(s) == s,
{
}

/// Committing what `populate` writes for the Hex or RGB space gives the
/// color back: the Hex field is a hex color whose channels are the color's,
/// and each RGB field is a `u8` literal of its channel.
pub proof fn law_populate_commit(space: ColorSpace, rgb: [u8; 3], polar: [i32; 3])
    requires
        space == ColorSpace::Hex || space == ColorSpace::Rgb,
    ensures
        space == ColorSpace::Hex ==> is_hex_color(field_text(space, rgb, polar, 0)) && forall|k: int|
            0 <= k < 3 ==> #[trigger] hex_channel(field_text(space, rgb, polar, 0), k) == rgb@[k],
        space == ColorSpace::Rgb ==> forall|k: int|
            0 <= k < 3 ==> is_u8_text(trim_ws(#[trigger] field_text(space, rgb, polar, k))) && dec_value(
                unsigned_digits(trim_ws(field_text(space, rgb, polar, k))),
            ) == rgb@[k],
{
    if space == ColorSpace::Hex {
        let t = hex_text(rgb);
        assert(t.len() == 7);
        assert(t[0] == '#');
        lemma_trim_none(t);
        let b = hex_body(t);
        assert(b =~= hex2(rgb@[0]) + hex2(rgb@[1]) + hex2(rgb@[2]));
        assert forall|k: int| 0 <= k < 3 implies #[trigger] hex_channel(t, k) == rgb@[k] by {
            let v = rgb@[k];
            assert(b[2 * k] == hex_char((v / 16) as int));
            assert(b[2 * k + 1] == hex_char((v % 16) as int));
        }
    } else {
        assert forall|k: int| 0 <= k < 3 implies is_u8_text(trim_ws(#[trigger] field_text(space, rgb, polar, k)))
            && dec_value(unsigned_digits(trim_ws(field_text(space, rgb, polar, k)))) == rgb@[k] by {
            let v = rgb@[k] as nat;
            let t = nat_digits(v);
            lemma_digits_value(v);
            assert(field_text(space, rgb, polar, k) == t);
            assert(is_dec_digit(t[0]) && is_dec_digit(t.last()));
            lemma_trim_none(t);
            assert(unsigned_digits(t) == t);
        }
    }
}

} // verus!
