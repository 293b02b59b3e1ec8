//! Backslash escapes as Java properties files write them (`\ ` for a
//! space, `\:`, `\=`, `\\`, `\t`, `\uXXXX`, ...), resolved in the names of
//! configuration files that other Goldleaf clients wrote.

use vstd::prelude::*;

verus! {

/// The value of a hexadecimal digit, or -1.
pub open spec fn hex_val(c: char) -> int {
    let x = c as u32;
    if 48 <= x <= 57 {
        x - 48
    } else if 97 <= x <= 102 {
        x - 87
    } else if 65 <= x <= 70 {
        x - 55
    } else {
        -1
    }
}

/// The value of the four hexadecimal digits at `at`, or -1.
pub open spec fn hex4(s: Seq<char>, at: int) -> int {
    if at < 0 || at + 4 > s.len() {
        -1
    } else {
        let a = hex_val(s[at]);
        let b = hex_val(s[at + 1]);
        let c = hex_val(s[at + 2]);
        let d = hex_val(s[at + 3]);
        if a < 0 || b < 0 || c < 0 || d < 0 {
            -1
        } else {
            a * 4096 + b * 256 + c * 16 + d
        }
    }
}

/// The character that a backslash before `c` stands for.
pub open spec fn escaped(c: char) -> char {
    if c == 't' {
        '\t'
    } else if c == 'n' {
        '\n'
    } else if c == 'r' {
        '\r'
    } else if c == 'f' {
        '\x0c'
    } else {
        c
    }
}

/// The code of a `\uXXXX` escape that follows the one at the start of
/// `s`, or -1.
pub open spec fn low_after(s: Seq<char>) -> int {
    if s.len() >= 12 && s[6] == '\\' && s[7] == 'u' {
        hex4(s, 8)
    } else {
        -1
    }
}

pub open spec fn is_high(u: int) -> bool {
    0xD800 <= u < 0xDC00
}

pub open spec fn is_low(u: int) -> bool {
    0xDC00 <= u < 0xE000
}

/// The character of a surrogate pair.
pub open spec fn pair_code(hi: int, lo: int) -> int {
    0x10000 + (hi - 0xD800) * 0x400 + (lo - 0xDC00)
}

/// `c` before the text `r`, if there is one.
pub open spec fn prepend(c: char, r: Option<Seq<char>>) -> Option<Seq<char>> {
    match r {
        Some(x) => Some(seq![c] + x),
        None => None,
    }
}

/// `a` before the text `r`, if there is one.
pub open spec fn join(a: Seq<char>, r: Option<Seq<char>>) -> Option<Seq<char>> {
    match r {
        Some(x) => Some(a + x),
        None => None,
    }
}

/// A key or element with its escapes resolved: `\t`, `\n`, `\r`, `\f`
/// stand for those controls, `\uXXXX` for a UTF-16 code unit (a surrogate
/// pair of two escapes for one character, a lone surrogate for U+FFFD),
/// and a backslash before any other character for that character; a
/// backslash at the very end is dropped. `None` when a `\u` is not
/// followed by four hexadecimal digits, which `Properties.load` rejects.
pub open spec fn decode(s: Seq<char>) -> Option<Seq<char>>
    decreases s.len(),
{
    if s.len() == 0 {
        Some(Seq::empty())
    } else if s[0] != '\\' {
        prepend(s[0], decode(s.skip(1)))
    } else if s.len() == 1 {
        Some(Seq::empty())
    } else if s[1] != 'u' {
        prepend(escaped(s[1]), decode(s.skip(2)))
    } else {
        let hi = hex4(s, 2);
        if hi < 0 {
            None
        } else if is_high(hi) && is_low(low_after(s)) {
            prepend((pair_code(hi, low_after(s)) as u32) as char, decode(s.skip(12)))
        } else if is_high(hi) || is_low(hi) {
            prepend('\u{FFFD}', decode(s.skip(6)))
        } else {
            prepend((hi as u32) as char, decode(s.skip(6)))
        }
    }
}

/// `char::from_u32`: the character with code point `code`, which exists
/// exactly when `code` is at most 0x10FFFF and not a surrogate.
#[verifier::external_body]
fn char_from_u32(code: u32) -> (r: Option<char>)
    ensures
        (code <= 0xD7FF || (0xE000 <= code && code <= 0x10FFFF)) ==> r == Some(code as char),
        !(code <= 0xD7FF || (0xE000 <= code && code <= 0x10FFFF)) ==> r.is_none(),
{
    char::from_u32(code)
}

fn hex_digit(c: char) -> (d: i64)
    ensures
        d == hex_val(c),
{
    let x = c as u32;
    if 48 <= x && x <= 57 {
        (x - 48) as i64
    } else if 97 <= x && x <= 102 {
        (x - 87) as i64
    } else if 65 <= x && x <= 70 {
        (x - 55) as i64
    } else {
        -1
    }
}

fn hex4_at(s: &[char], at: usize) -> (r: i64)
    ensures
        r == hex4(s@, at as int),
{
    if at > s.len() || s.len() - at < 4 {
        return -1;
    }
    let a = hex_digit(s[at]);
    let b = hex_digit(s[at + 1]);
    let c = hex_digit(s[at + 2]);
    let d = hex_digit(s[at + 3]);
    if a < 0 || b < 0 || c < 0 || d < 0 {
        -1
    } else {
        a * 4096 + b * 256 + c * 16 + d
    }
}

fn escape_char(c: char) -> (r: char)
    ensures
        r == escaped(c),
{
    if c == 't' {
        '\t'
    } else if c == 'n' {
        '\n'
    } else if c == 'r' {
        '\r'
    } else if c == 'f' {
        '\x0c'
    } else {
        c
    }
}

proof fn lemma_hex4_skip(s: Seq<char>, i: int, a: int)
    requires
        0 <= i <= s.len(),
        0 <= a,
    ensures
        hex4(s.skip(i), a) == hex4(s, i + a),
{
    let t = s.skip(i);
    if a + 4 <= t.len() {
        assert(t[a] == s[i + a]);
        assert(t[a + 1] == s[i + a + 1]);
        assert(t[a + 2] == s[i + a + 2]);
        assert(t[a + 3] == s[i + a + 3]);
    }
}

/// The characters of an optional character.
pub open spec fn opt_chars(c: Option<char>) -> Seq<char> {
    match c {
        Some(x) => seq![x],
        None => Seq::empty(),
    }
}

/// Resolves the `\u` escape at `i`.
#[verifier::rlimit(40)]
fn decode_u(s: &[char], i: usize) -> (r: Option<(Option<char>, usize)>)
    requires
        i + 1 < s@.len(),
        s@[i as int] == '\\',
        s@[i + 1] == 'u',
    ensures
        match r {
            Some((c, j)) => i < j <= s@.len() && decode(s@.skip(i as int)) == join(
                opt_chars(c),
                decode(s@.skip(j as int)),
            ),
            None => decode(s@.skip(i as int)).is_none(),
        },
{
    let n = s.len();
    let ghost t = s@.skip(i as int);
    assert(t[0] == '\\' && t[1] == 'u');
    let hi = hex4_at(s, i + 2);
    proof {
        lemma_hex4_skip(s@, i as int, 2);
    }
    if hi < 0 {
        assert(decode(t).is_none());
        return None;
    }
    let lo: i64 = if n - i >= 12 && s[i + 6] == '\\' && s[i + 7] == 'u' {
        hex4_at(s, i + 8)
    } else {
        -1
    };
    proof {
        lemma_hex4_skip(s@, i as int, 8);
        if n - i >= 12 {
            assert(t[6] == s[i + 6]);
            assert(t[7] == s[i + 7]);
        }
    }
    assert(lo == low_after(t));
    assert(hex4(t, 2) == hi);
    if 0xD800 <= hi && hi < 0xDC00 && 0xDC00 <= lo && lo < 0xE000 {
        let code = (0x10000 + (hi - 0xD800) * 0x400 + (lo - 0xDC00)) as u32;
        assert(code == pair_code(hi as int, lo as int));
        assert(t.skip(12) =~= s@.skip(i + 12));
        let c = char_from_u32(code);
        assert(decode(t) == prepend((pair_code(hi as int, lo as int) as u32) as char, decode(t.skip(12))));
        Some((c, i + 12))
    } else if 0xD800 <= hi && hi < 0xE000 {
        assert(t.skip(6) =~= s@.skip(i + 6));
        assert(decode(t) == prepend('\u{FFFD}', decode(t.skip(6))));
        Some((Some('\u{FFFD}'), i + 6))
    } else {
        assert(t.skip(6) =~= s@.skip(i + 6));
        let c = char_from_u32(hi as u32);
        assert(decode(t) == prepend((hi as u32) as char, decode(t.skip(6))));
        Some((c, i + 6))
    }
}

/// Resolves the escape (or plain character) at `i`: what it stands for,
/// and where the next one starts; `None` for a malformed `\u`.
fn decode_unit(s: &[char], i: usize) -> (r: Option<(Option<char>, usize)>)
    requires
        i < s@.len(),
    ensures
        match r {
            Some((c, j)) => i < j <= s@.len() && decode(s@.skip(i as int)) == join(
                opt_chars(c),
                decode(s@.skip(j as int)),
            ),
            None => decode(s@.skip(i as int)).is_none(),
        },
{
    let n = s.len();
    let ghost t = s@.skip(i as int);
    assert(t[0] == s[i as int]);
    if s[i] != '\\' {
        assert(t.skip(1) =~= s@.skip(i + 1));
        return Some((Some(s[i]), i + 1));
    }
    if i + 1 == n {
        assert(s@.skip(n as int).len() == 0);
        assert(Seq::<char>::empty() + Seq::<char>::empty() =~= Seq::<char>::empty());
        return Some((None, n));
    }
    assert(t[1] == s[i + 1]);
    if s[i + 1] != 'u' {
        assert(t.skip(2) =~= s@.skip(i + 2));
        return Some((Some(escape_char(s[i + 1])), i + 2));
    }
    decode_u(s, i)
}

/// Resolves the escapes of a key or element.
pub fn decode_chars(s: &[char]) -> (r: Option<Vec<char>>)
    ensures
        match r {
            Some(v) => decode(s@) == Some(v@),
            None => decode(s@).is_none(),
        },
{
    let n = s.len();
    let mut out: Vec<char> = Vec::new();
    let mut i: usize = 0;
    assert(s@.skip(0) =~= s@);
    assert(Seq::<char>::empty() + Seq::<char>::empty() =~= Seq::<char>::empty());
    while i < n
        invariant
            i <= n == s@.len(),
            decode(s@) == join(out@, decode(s@.skip(i as int))),
        decreases n - i,
    {
        let ghost before = out@;
        match decode_unit(s, i) {
            None => {
                return None;
            },
            Some((c, j)) => {
                match c {
                    Some(x) => out.push(x),
                    None => {},
                }
                assert(out@ =~= before + opt_chars(c));
                assert(join(before, join(opt_chars(c), decode(s@.skip(j as int)))) == join(
                    out@,
                    decode(s@.skip(j as int)),
                )) by {
                    match decode(s@.skip(j as int)) {
                        Some(x) => {
                            assert(before + (opt_chars(c) + x) =~= out@ + x);
                        },
                        None => {},
                    }
                }
                i = j;
            },
        }
    }
    assert(s@.skip(i as int).len() == 0);
    assert(out@ + Seq::<char>::empty() =~= out@);
    Some(out)
}

/// A name as written with its escapes resolved; a name with a malformed
/// `\u` escape stays as written.
pub open spec fn name_of(raw: Seq<char>) -> Seq<char> {
    match decode(raw) {
        Some(d) => d,
        None => raw,
    }
}

/// Resolves the escapes of a name.
pub fn resolve_name(raw: &[char]) -> (r: Vec<char>)
    ensures
        r@ == name_of(raw@),
{
    match decode_chars(raw) {
        Some(d) => d,
        None => {
            let mut v: Vec<char> = Vec::new();
            crate::text::append_chars(&mut v, raw);
            assert(v@ =~= raw@);
            v
        },
    }
}

/// A name without backslashes has no escapes to resolve.
pub proof fn lemma_name_without_backslash(s: Seq<char>)
    requires
        forall|i: int| 0 <= i < s.len() ==> #[trigger] s[i] != '\\',
    ensures
        decode(s) == Some(s),
        name_of(s) == s,
    decreases s.len(),
{
    if s.len() > 0 {
        let t = s.skip(1);
        assert forall|i: int| 0 <= i < t.len() implies #[trigger] t[i] != '\\' by {
            assert(t[i] == s[i + 1]);
        }
        lemma_name_without_backslash(t);
        assert(s[0] != '\\');
        assert(seq![s[0]] + t =~= s);
    }
}

/// A backslash before a character other than `u`, `t`, `n`, `r`, `f`
/// stands for that character (so `My\ Games` is `My Games` and `a\:b` is
/// `a:b`); the rest of the name is kept.
pub proof fn lemma_name_escape(a: Seq<char>, c: char, b: Seq<char>)
    requires
        forall|i: int| 0 <= i < a.len() ==> #[trigger] a[i] != '\\',
        forall|i: int| 0 <= i < b.len() ==> #[trigger] b[i] != '\\',
        c != 'u' && c != 't' && c != 'n' && c != 'r' && c != 'f',
    ensures
        name_of(a + seq!['\\', c] + b) == a + seq![c] + b,
{
    lemma_decode_escape_any(a, c, b);
}

proof fn lemma_decode_escape_any(a: Seq<char>, c: char, b: Seq<char>)
    requires
        forall|i: int| 0 <= i < a.len() ==> #[trigger] a[i] != '\\',
        forall|i: int| 0 <= i < b.len() ==> #[trigger] b[i] != '\\',
        c != 'u' && c != 't' && c != 'n' && c != 'r' && c != 'f',
    ensures
        decode(a + seq!['\\', c] + b) == Some(a + seq![c] + b),
    decreases a.len(),
{
    let s = a + seq!['\\', c] + b;
    if a.len() == 0 {
        assert(s =~= seq!['\\', c] + b);
        assert(s.skip(2) =~= b);
        lemma_name_without_backslash(b);
        assert(seq![c] + b =~= a + seq![c] + b);
    } else {
        let t = a.skip(1);
        assert forall|i: int| 0 <= i < t.len() implies #[trigger] t[i] != '\\' by {
            assert(t[i] == a[i + 1]);
        }
        lemma_decode_escape_any(t, c, b);
        assert(s[0] == a[0]);
        assert(s.skip(1) =~= t + seq!['\\', c] + b);
        assert(seq![a[0]] + (t + seq![c] + b) =~= a + seq![c] + b);
    }
}

} // verus!
