//! Character-level helpers: conversions between `str`, `String` and
//! character vectors, decimal rendering, hexadecimal parsing as
//! `u32::from_str_radix(_, 16)` does it, and substring search.
use vstd::prelude::*;
use vstd::utf8::is_scalar;
use vstd::utf8::encode_utf8;

verus! {

/// `String::push` appends one character.
pub assume_specification[ String::push ](s: &mut String, ch: char)
    ensures
        final(s)@ == old(s)@.push(ch),
;

/// `char::from_u32` gives the character with that code when the code is a
/// Unicode scalar value, and `None` otherwise.
pub assume_specification[ char::from_u32 ](i: u32) -> (r: Option<char>)
    ensures
        is_scalar(i) ==> r == Some(i as char),
        !is_scalar(i) ==> r is None,
;

/// The characters of a string, in order.
pub fn chars_of(s: &str) -> (r: Vec<char>)
    ensures
        r@ == s@,
{
    let mut r: Vec<char> = Vec::new();
    for c in it: s.chars()
        invariant
            r@ == it.seq().take(it.index()),
    {
        r.push(c);
    }
    r
}

/// A string holding the given characters.
pub fn string_of(v: &[char]) -> (r: String)
    ensures
        r@ == v@,
{
    let mut r = String::new();
    for i in 0..v.len()
        invariant
            r@ == v@.take(i as int),
    {
        r.push(v[i]);
        assert(v@.take(i + 1) == v@.take(i as int).push(v@[i as int]));
    }
    assert(v@.take(v@.len() as int) == v@);
    r
}

/// The number of bytes in the UTF-8 encoding of one character.
pub open spec fn utf8_width(c: char) -> nat {
    if (c as u32) < 0x80 {
        1
    } else if (c as u32) < 0x800 {
        2
    } else if (c as u32) < 0x10000 {
        3
    } else {
        4
    }
}

proof fn lemma_utf8_width(c: char)
    ensures
        vstd::utf8::encode_scalar(c as u32).len() == utf8_width(c),
{
    broadcast use vstd::utf8::char_is_scalar;
    assert(is_scalar(c as u32));
}

/// The length of the UTF-8 encoding grows by the width of each pushed
/// character.
pub proof fn lemma_utf8_len_push(s: Seq<char>, c: char)
    ensures
        encode_utf8(s.push(c)).len() == encode_utf8(s).len() + utf8_width(c),
    decreases s.len(),
{
    if s.len() == 0 {
        lemma_utf8_width(c);
        assert(s.push(c).drop_first() == s);
    } else {
        assert(s.push(c).drop_first() == s.drop_first().push(c));
        lemma_utf8_len_push(s.drop_first(), c);
    }
}

fn utf8_width_exec(c: char) -> (r: u128)
    ensures
        r == utf8_width(c),
{
    let u = c as u32;
    if u < 0x80 {
        1
    } else if u < 0x800 {
        2
    } else if u < 0x10000 {
        3
    } else {
        4
    }
}

/// The number of bytes in the UTF-8 encoding of the given characters, as
/// `str::len` counts them.
pub fn utf8_len(v: &[char]) -> (r: u128)
    ensures
        r == encode_utf8(v@).len(),
{
    let mut r: u128 = 0;
    for i in 0..v.len()
        invariant
            r == encode_utf8(v@.take(i as int)).len(),
            r <= 4 * i,
    {
        proof {
            assert(v@.take(i + 1) == v@.take(i as int).push(v@[i as int]));
            lemma_utf8_len_push(v@.take(i as int), v@[i as int]);
        }
        r = r + utf8_width_exec(v[i]);
    }
    assert(v@.take(v@.len() as int) == v@);
    r
}

/// The character for the decimal digit `d`.
pub open spec fn digit_char(d: nat) -> char {
    ((d + 48) as u32) as char
}

/// The decimal rendering of `n`, as `u32::to_string` gives it: no sign, no
/// leading zeros, `"0"` for zero.
pub open spec fn decimal(n: nat) -> Seq<char>
    decreases n,
{
    if n < 10 {
        seq![digit_char(n)]
    } else {
        decimal(n / 10).push(digit_char(n % 10))
    }
}

/// Renders `n` in decimal.
pub fn decimal_chars(n: u32) -> (r: Vec<char>)
    ensures
        r@ == decimal(n as nat),
    decreases n,
{
    let d: u32 = n % 10;
    let c = char_of_digit(d);
    if n < 10 {
        let mut r: Vec<char> = Vec::new();
        r.push(c);
        r
    } else {
        let mut r = decimal_chars(n / 10);
        r.push(c);
        r
    }
}

fn char_of_digit(d: u32) -> (c: char)
    requires
        d < 10,
    ensures
        c == digit_char(d as nat),
{
    let b: u8 = d as u8 + 48;
    b as char
}

/// The value of a hexadecimal digit, either case.
pub open spec fn hex_digit(c: char) -> Option<nat> {
    if '0' <= c && c <= '9' {
        Some((c as u32 - 48) as nat)
    } else if 'a' <= c && c <= 'f' {
        Some((c as u32 - 87) as nat)
    } else if 'A' <= c && c <= 'F' {
        Some((c as u32 - 55) as nat)
    } else {
        None
    }
}

/// The value of a string of hexadecimal digits; `None` when a character is
/// not a digit. The empty string has value zero.
pub open spec fn hex_value(s: Seq<char>) -> Option<nat>
    decreases s.len(),
{
    if s.len() == 0 {
        Some(0)
    } else {
        match (hex_value(s.drop_last()), hex_digit(s.last())) {
            (Some(v), Some(d)) => Some(v * 16 + d),
            _ => None,
        }
    }
}

/// What `from_str_radix(s, 16)` gives for an unsigned type whose largest
/// value is `max`: an empty string, a lone `+`, a non-digit or a value above
/// `max` is an error; one leading `+` is allowed.
pub open spec fn parse_hex(s: Seq<char>, max: nat) -> Option<nat> {
    if s.len() == 0 || s == seq!['+'] {
        None
    } else {
        let digits = if s[0] == '+' { s.drop_first() } else { s };
        match hex_value(digits) {
            Some(v) => if v <= max { Some(v) } else { None },
            None => None,
        }
    }
}

fn hex_digit_exec(c: char) -> (r: Option<u32>)
    ensures
        r matches Some(d) ==> hex_digit(c) == Some(d as nat),
        r is None ==> hex_digit(c) is None,
{
    if '0' <= c && c <= '9' {
        Some(c as u32 - 48)
    } else if 'a' <= c && c <= 'f' {
        Some(c as u32 - 87)
    } else if 'A' <= c && c <= 'F' {
        Some(c as u32 - 55)
    } else {
        None
    }
}

proof fn lemma_hex_value_grows(s: Seq<char>)
    requires
        hex_value(s) is Some,
        s.len() > 0,
    ensures
        hex_value(s.drop_last()) is Some,
        hex_value(s.drop_last())->0 <= hex_value(s)->0,
{
}

/// Parses `s` as `from_str_radix(s, 16)` does for an unsigned type whose
/// largest value is `max`.
pub fn parse_hex_exec(s: &[char], max: u32) -> (r: Option<u32>)
    ensures
        r matches Some(v) ==> parse_hex(s@, max as nat) == Some(v as nat),
        r is None ==> parse_hex(s@, max as nat) is None,
{
    let n = s.len();
    if n == 0 || (n == 1 && s[0] == '+') {
        proof {
            if n == 1 {
                assert(s@ == seq!['+']);
            }
        }
        return None;
    }
    let start: usize = if s[0] == '+' { 1 } else { 0 };
    let ghost digits = if s@[0] == '+' { s@.drop_first() } else { s@ };
    assert(digits == s@.subrange(start as int, n as int));
    let mut v: u64 = 0;
    let mut i: usize = start;
    while i < n
        invariant
            start <= i <= n,
            n == s@.len(),
            n > 0,
            s@ != seq!['+'],
            digits == (if s@[0] == '+' { s@.drop_first() } else { s@ }),
            digits == s@.subrange(start as int, n as int),
            hex_value(s@.subrange(start as int, i as int)) == Some(v as nat),
            v <= max,
        decreases n - i,
    {
        let ghost prefix = s@.subrange(start as int, i + 1);
        assert(prefix.drop_last() == s@.subrange(start as int, i as int));
        assert(prefix.last() == s@[i as int]);
        match hex_digit_exec(s[i]) {
            None => {
                proof {
                    assert(hex_value(prefix) is None);
                    assert(digits.take((i + 1 - start) as int) == prefix);
                    lemma_hex_prefix_none(digits, (i + 1 - start) as int);
                }
                return None;
            },
            Some(d) => {
                let nv: u64 = v * 16 + d as u64;
                if nv > max as u64 {
                    proof {
                        assert(hex_value(prefix) == Some(nv as nat));
                        assert(digits.take((i + 1 - start) as int) == prefix);
                        lemma_hex_prefix_bound(digits, (i + 1 - start) as int);
                        assert(hex_value(digits) is None || hex_value(digits)->0 > max);
                    }
                    return None;
                }
                v = nv;
            },
        }
        i = i + 1;
    }
    assert(s@.subrange(start as int, n as int) == digits);
    Some(v as u32)
}

proof fn lemma_hex_prefix_none(s: Seq<char>, k: int)
    requires
        0 <= k <= s.len(),
        hex_value(s.take(k)) is None,
    ensures
        hex_value(s) is None,
    decreases s.len() - k,
{
    if k < s.len() {
        assert(s.take(k + 1).drop_last() == s.take(k));
        lemma_hex_prefix_none(s, k + 1);
    } else {
        assert(s.take(k) == s);
    }
}

proof fn lemma_hex_prefix_bound(s: Seq<char>, k: int)
    requires
        0 <= k <= s.len(),
        hex_value(s.take(k)) is Some,
    ensures
        hex_value(s) is None || hex_value(s)->0 >= hex_value(s.take(k))->0,
    decreases s.len() - k,
{
    if k < s.len() {
        assert(s.take(k + 1).drop_last() == s.take(k));
        if hex_value(s.take(k + 1)) is Some {
            lemma_hex_prefix_bound(s, k + 1);
        } else {
            lemma_hex_prefix_none(s, k + 1);
        }
    } else {
        assert(s.take(k) == s);
    }
}

/// A character is ASCII exactly when its code is below 128.
pub proof fn lemma_ascii_code(c: char)
    ensures
        ('\0' <= c <= '\u{7f}') == ((c as u32) < 128),
{
    vstd::utf8::char_is_scalar(c);
}

/// Whether `s` starts with the two characters `0x`.
pub open spec fn has_hex_prefix(s: Seq<char>) -> bool {
    s.len() >= 2 && s[0] == '0' && s[1] == 'x'
}

/// Whether `needle` occurs in `hay` as a contiguous run of characters (the
/// empty needle occurs everywhere).
pub open spec fn occurs_in(needle: Seq<char>, hay: Seq<char>) -> bool {
    exists|i: int| 0 <= i && i + needle.len() <= hay.len() && #[trigger] hay.subrange(i, i + needle.len()) == needle
}

fn occurs_at(needle: &[char], hay: &[char], i: usize) -> (r: bool)
    requires
        i + needle@.len() <= hay@.len(),
    ensures
        r == (hay@.subrange(i as int, i + needle@.len()) == needle@),
{
    let m = needle.len();
    let hl = hay.len();
    let mut j: usize = 0;
    while j < m
        invariant
            hl == hay@.len(),
            j <= m,
            m == needle@.len(),
            i + m <= hay@.len(),
            i + m <= hay@.len(),
            hay@.subrange(i as int, i + j) == needle@.take(j as int),
        decreases m - j,
    {
        if hay[i + j] != needle[j] {
            assert(hay@.subrange(i as int, i + m)[j as int] != needle@[j as int]);
            return false;
        }
        assert(hay@.subrange(i as int, i + j + 1) == needle@.take(j + 1));
        j = j + 1;
    }
    assert(needle@.take(m as int) == needle@);
    true
}

/// Whether `needle` occurs in `hay`, as `str::contains` answers it.
pub fn occurs_in_exec(needle: &[char], hay: &[char]) -> (r: bool)
    ensures
        r == occurs_in(needle@, hay@),
{
    if needle.len() > hay.len() {
        return false;
    }
    let last = hay.len() - needle.len();
    let mut i: usize = 0;
    while i <= last
        invariant
            last + needle@.len() == hay@.len(),
            forall|k: int| 0 <= k < i ==> #[trigger] hay@.subrange(k, k + needle@.len()) != needle@,
        decreases last + 1 - i,
    {
        if occurs_at(needle, hay, i) {
            return true;
        }
        if i == last {
            return false;
        }
        i = i + 1;
    }
    false
}

} // verus!
