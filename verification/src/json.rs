//! The JSON string codec: the definition of how a record's content is
//! written as a JSON string literal (the whole contents of a Plain-mode
//! output file), a verified encoder, a verified decoder, and the law that
//! decoding inverts encoding.

use crate::chars::{char_from_u32, digit_char, from_chars, is_unicode_scalar, to_chars};
use vstd::prelude::*;

verus! {

/// The lowercase hexadecimal digit character for `d`, which must lie in 0 to 15.
pub open spec fn hex_char(d: int) -> char {
    if d < 10 {
        digit_char(d)
    } else if d == 10 {
        'a'
    } else if d == 11 {
        'b'
    } else if d == 12 {
        'c'
    } else if d == 13 {
        'd'
    } else if d == 14 {
        'e'
    } else {
        'f'
    }
}

/// How one character appears inside a JSON string literal: quote and
/// backslash get a backslash escape, the common control characters get
/// their two-character escapes, the remaining control characters get a
/// `\u00XX` escape with lowercase hex digits, and every other character
/// stands for itself.
pub open spec fn json_escape_char(c: char) -> Seq<char> {
    if c == '"' {
        seq!['\\', '"']
    } else if c == '\\' {
        seq!['\\', '\\']
    } else if c == '\u{8}' {
        seq!['\\', 'b']
    } else if c == '\t' {
        seq!['\\', 't']
    } else if c == '\n' {
        seq!['\\', 'n']
    } else if c == '\u{c}' {
        seq!['\\', 'f']
    } else if c == '\r' {
        seq!['\\', 'r']
    } else if (c as u32) < 0x20 {
        seq![
            '\\',
            'u',
            '0',
            '0',
            hex_char(((c as u32) / 16) as int),
            hex_char(((c as u32) % 16) as int),
        ]
    } else {
        seq![c]
    }
}

/// The body of the JSON string literal for `s`: each character escaped, in order.
pub open spec fn json_escape(s: Seq<char>) -> Seq<char>
    decreases s.len(),
{
    if s.len() == 0 {
        Seq::<char>::empty()
    } else {
        json_escape_char(s[0]) + json_escape(s.drop_first())
    }
}

/// The JSON encoding of the string `s`: the escaped body in double quotes.
pub open spec fn json_encode_spec(s: Seq<char>) -> Seq<char> {
    seq!['"'] + json_escape(s) + seq!['"']
}

/// Escaping distributes over appending one character.
pub proof fn lemma_json_escape_push(s: Seq<char>, c: char)
    ensures
        json_escape(s.push(c)) == json_escape(s) + json_escape_char(c),
    decreases s.len(),
{
    if s.len() == 0 {
        let t = s.push(c);
        assert(t.len() == 1 && t[0] == c);
        assert(t.drop_first() =~= Seq::<char>::empty());
        assert(json_escape(Seq::<char>::empty()) == Seq::<char>::empty());
        assert(json_escape(t) == json_escape_char(c) + json_escape(t.drop_first()));
        assert(json_escape_char(c) + Seq::<char>::empty() =~= json_escape_char(c));
        assert(json_escape(s) + json_escape_char(c) =~= json_escape_char(c));
    } else {
        assert(s.push(c)[0] == s[0]);
        assert(s.push(c).drop_first() =~= s.drop_first().push(c));
        lemma_json_escape_push(s.drop_first(), c);
        assert(json_escape_char(s[0]) + (json_escape(s.drop_first()) + json_escape_char(c))
            =~= (json_escape_char(s[0]) + json_escape(s.drop_first())) + json_escape_char(c));
    }
}

fn hex_char_exec(d: u32) -> (c: char)
    requires
        d < 16,
    ensures
        c == hex_char(d as int),
{
    if d == 0 {
        '0'
    } else if d == 1 {
        '1'
    } else if d == 2 {
        '2'
    } else if d == 3 {
        '3'
    } else if d == 4 {
        '4'
    } else if d == 5 {
        '5'
    } else if d == 6 {
        '6'
    } else if d == 7 {
        '7'
    } else if d == 8 {
        '8'
    } else if d == 9 {
        '9'
    } else if d == 10 {
        'a'
    } else if d == 11 {
        'b'
    } else if d == 12 {
        'c'
    } else if d == 13 {
        'd'
    } else if d == 14 {
        'e'
    } else {
        'f'
    }
}

fn escape_char_into(out: &mut Vec<char>, c: char)
    ensures
        final(out)@ == old(out)@ + json_escape_char(c),
{
    let ghost prev = out@;
    let u = c as u32;
    if c == '"' {
        out.push('\\');
        out.push('"');
    } else if c == '\\' {
        out.push('\\');
        out.push('\\');
    } else if u == 0x8 {
        out.push('\\');
        out.push('b');
    } else if u == 0x9 {
        out.push('\\');
        out.push('t');
    } else if u == 0xa {
        out.push('\\');
        out.push('n');
    } else if u == 0xc {
        out.push('\\');
        out.push('f');
    } else if u == 0xd {
        out.push('\\');
        out.push('r');
    } else if u < 0x20 {
        out.push('\\');
        out.push('u');
        out.push('0');
        out.push('0');
        out.push(hex_char_exec(u / 16));
        out.push(hex_char_exec(u % 16));
    } else {
        out.push(c);
    }
    proof {
        assert(out@ =~= prev + json_escape_char(c));
    }
}

/// JSON-encode the string `s`: what a Plain-mode output file holds.
pub fn json_encode_string(s: &str) -> (r: String)
    ensures
        r@ == json_encode_spec(s@),
{
    let cs = to_chars(s);
    let mut out: Vec<char> = Vec::new();
    out.push('"');
    let mut i: usize = 0;
    while i < cs.len()
        invariant
            cs@ == s@,
            i <= cs@.len(),
            out@ == seq!['"'] + json_escape(cs@.take(i as int)),
        decreases cs@.len() - i,
    {
        escape_char_into(&mut out, cs[i]);
        proof {
            assert(cs@.take(i + 1) =~= cs@.take(i as int).push(cs@[i as int]));
            lemma_json_escape_push(cs@.take(i as int), cs@[i as int]);
            assert((seq!['"'] + json_escape(cs@.take(i as int))) + json_escape_char(cs@[i as int])
                =~= seq!['"'] + (json_escape(cs@.take(i as int)) + json_escape_char(
                cs@[i as int],
            )));
        }
        i += 1;
    }
    out.push('"');
    proof {
        assert(cs@.take(cs@.len() as int) =~= s@);
        assert(out@ =~= json_encode_spec(s@));
    }
    from_chars(&out)
}

/// The escape codes that stand for a single character after a backslash.
pub open spec fn is_short_escape(c: char) -> bool {
    c == '"' || c == '\\' || c == '/' || c == 'b' || c == 'f' || c == 'n' || c == 'r' || c == 't'
}

/// The character that a two-character escape stands for.
pub open spec fn short_escape_value(c: char) -> char {
    if c == '"' {
        '"'
    } else if c == '\\' {
        '\\'
    } else if c == '/' {
        '/'
    } else if c == 'b' {
        '\u{8}'
    } else if c == 'f' {
        '\u{c}'
    } else if c == 'n' {
        '\n'
    } else if c == 'r' {
        '\r'
    } else {
        '\t'
    }
}

/// Whether `c` is a hexadecimal digit, in either case.
pub open spec fn is_hex_digit(c: char) -> bool {
    ('0' <= c && c <= '9') || ('a' <= c && c <= 'f') || ('A' <= c && c <= 'F')
}

/// The numeric value of the hexadecimal digit `c`.
pub open spec fn hex_val(c: char) -> int {
    if '0' <= c && c <= '9' {
        c as int - '0' as int
    } else if 'a' <= c && c <= 'f' {
        c as int - 'a' as int + 10
    } else {
        c as int - 'A' as int + 10
    }
}

/// The code point written by four hexadecimal digits.
pub open spec fn hex4_val(a: char, b: char, c: char, d: char) -> int {
    hex_val(a) * 4096 + hex_val(b) * 256 + hex_val(c) * 16 + hex_val(d)
}

/// Whether `v` is a high (leading) surrogate code unit.
pub open spec fn is_high_surrogate(v: int) -> bool {
    0xD800 <= v <= 0xDBFF
}

/// Whether `v` is a low (trailing) surrogate code unit.
pub open spec fn is_low_surrogate(v: int) -> bool {
    0xDC00 <= v <= 0xDFFF
}

/// The code point that a surrogate pair stands for.
pub open spec fn surrogate_pair_val(hi: int, lo: int) -> int {
    0x10000 + (hi - 0xD800) * 0x400 + (lo - 0xDC00)
}

/// Decode the body of a JSON string literal: resolve every escape
/// sequence, surrogate pairs included, and reject unescaped quotes,
/// stray backslashes, raw control characters, and lone surrogates.
pub open spec fn json_unescape(t: Seq<char>) -> Option<Seq<char>>
    decreases t.len(),
{
    if t.len() == 0 {
        Some(Seq::<char>::empty())
    } else if t[0] == '\\' {
        if t.len() >= 2 && is_short_escape(t[1]) {
            match json_unescape(t.skip(2)) {
                Some(rest) => Some(seq![short_escape_value(t[1])] + rest),
                None => None,
            }
        } else if t.len() >= 6 && t[1] == 'u' && is_hex_digit(t[2]) && is_hex_digit(t[3])
            && is_hex_digit(t[4]) && is_hex_digit(t[5]) {
            let v = hex4_val(t[2], t[3], t[4], t[5]);
            if is_unicode_scalar(v as u32) {
                match json_unescape(t.skip(6)) {
                    Some(rest) => Some(seq![(v as u32) as char] + rest),
                    None => None,
                }
            } else if is_high_surrogate(v) && t.len() >= 12 && t[6] == '\\' && t[7] == 'u'
                && is_hex_digit(t[8]) && is_hex_digit(t[9]) && is_hex_digit(t[10]) && is_hex_digit(
                t[11],
            ) && is_low_surrogate(hex4_val(t[8], t[9], t[10], t[11])) {
                let w = hex4_val(t[8], t[9], t[10], t[11]);
                match json_unescape(t.skip(12)) {
                    Some(rest) => Some(seq![(surrogate_pair_val(v, w) as u32) as char] + rest),
                    None => None,
                }
            } else {
                None
            }
        } else {
            None
        }
    } else if t[0] == '"' || (t[0] as u32) < 0x20 {
        None
    } else {
        match json_unescape(t.skip(1)) {
            Some(rest) => Some(seq![t[0]] + rest),
            None => None,
        }
    }
}

/// Decode a complete JSON string literal: a double-quoted escaped body
/// and nothing else.
pub open spec fn json_decode_spec(t: Seq<char>) -> Option<Seq<char>> {
    if t.len() >= 2 && t[0] == '"' && t[t.len() - 1] == '"' {
        json_unescape(t.subrange(1, t.len() - 1))
    } else {
        None
    }
}

/// Unescaping inverts escaping, one character at a time.
proof fn lemma_unescape_escape(s: Seq<char>)
    ensures
        json_unescape(json_escape(s)) == Some(s),
    decreases s.len(),
{
    if s.len() == 0 {
    } else {
        let c = s[0];
        let e = json_escape_char(c);
        let rest = json_escape(s.drop_first());
        let t = json_escape(s);
        assert(t == e + rest);
        lemma_unescape_escape(s.drop_first());
        assert(t.skip(e.len() as int) =~= rest);
        if c == '"' || c == '\\' || c == '\u{8}' || c == '\t' || c == '\n' || c == '\u{c}' || c
            == '\r' {
            assert(t[0] == '\\' && is_short_escape(t[1]) && short_escape_value(t[1]) == c);
            assert(json_unescape(t) == Some(seq![c] + s.drop_first()));
        } else if (c as u32) < 0x20 {
            let u = c as u32;
            let q = ((c as u32) / 16) as int;
            let m = ((c as u32) % 16) as int;
            assert(t[0] == '\\' && t[1] == 'u' && t[2] == '0' && t[3] == '0');
            assert(t[4] == hex_char(q) && t[5] == hex_char(m));
            assert(!is_short_escape('u'));
            assert(0 <= q < 2 && 0 <= m < 16 && q * 16 + m == u) by (nonlinear_arith)
                requires
                    u < 0x20,
                    q == ((u / 16) as int),
                    m == ((u % 16) as int),
            ;
            assert(is_hex_digit('0') && hex_val('0') == 0);
            assert(is_hex_digit(hex_char(q)) && hex_val(hex_char(q)) == q);
            assert(is_hex_digit(hex_char(m)) && hex_val(hex_char(m)) == m);
            assert(hex4_val(t[2], t[3], t[4], t[5]) == q * 16 + m);
            assert(is_unicode_scalar(u));
            assert(((q * 16 + m) as u32) as char == c) by {
                vstd::utf8::char_u32_cast(c, u);
            }
            assert(json_unescape(t) == Some(seq![c] + s.drop_first()));
        } else {
            assert(t[0] == c && c != '\\' && c != '"' && (c as u32) >= 0x20);
            assert(json_unescape(t) == Some(seq![c] + s.drop_first()));
        }
        assert(seq![c] + s.drop_first() =~= s);
    }
}

/// Decoding inverts encoding: the contents of a Plain-mode output file,
/// read back as a JSON string, is exactly the record content it was
/// written from.
pub proof fn lemma_json_round_trip(s: Seq<char>)
    ensures
        json_decode_spec(json_encode_spec(s)) == Some(s),
{
    let t = json_encode_spec(s);
    assert(t[0] == '"');
    assert(t[t.len() - 1] == '"');
    assert(t.subrange(1, t.len() - 1) =~= json_escape(s));
    lemma_unescape_escape(s);
}

fn is_hex_digit_exec(c: char) -> (r: bool)
    ensures
        r == is_hex_digit(c),
{
    let u = c as u32;
    (u >= '0' as u32 && u <= '9' as u32) || (u >= 'a' as u32 && u <= 'f' as u32) || (u >= 'A'
        as u32 && u <= 'F' as u32)
}

fn hex_val_exec(c: char) -> (r: u32)
    requires
        is_hex_digit(c),
    ensures
        r == hex_val(c),
        r < 16,
{
    let u = c as u32;
    if u >= '0' as u32 && u <= '9' as u32 {
        u - '0' as u32
    } else if u >= 'a' as u32 && u <= 'f' as u32 {
        u - 'a' as u32 + 10
    } else {
        u - 'A' as u32 + 10
    }
}

fn is_short_escape_exec(c: char) -> (r: bool)
    ensures
        r == is_short_escape(c),
{
    c == '"' || c == '\\' || c == '/' || c == 'b' || c == 'f' || c == 'n' || c == 'r' || c == 't'
}

fn short_escape_value_exec(c: char) -> (r: char)
    requires
        is_short_escape(c),
    ensures
        r == short_escape_value(c),
{
    if c == '"' {
        '"'
    } else if c == '\\' {
        '\\'
    } else if c == '/' {
        '/'
    } else if c == 'b' {
        '\u{8}'
    } else if c == 'f' {
        '\u{c}'
    } else if c == 'n' {
        '\n'
    } else if c == 'r' {
        '\r'
    } else {
        '\t'
    }
}

/// Decode the characters of a JSON string literal body, starting at the
/// character after the opening quote. Returns the decoded characters, or
/// None exactly when the spec-level decoder rejects the body.
fn unescape_chars(body: &Vec<char>) -> (r: Option<Vec<char>>)
    ensures
        match r {
            Some(v) => json_unescape(body@) == Some(v@),
            None => json_unescape(body@) is None,
        },
{
    let n = body.len();
    let mut out: Vec<char> = Vec::new();
    let mut j: usize = 0;
    proof {
        assert(body@.skip(0) =~= body@);
        if json_unescape(body@) is Some {
            assert(out@ + json_unescape(body@).unwrap() =~= json_unescape(body@).unwrap());
        }
    }
    while j < n
        invariant
            n == body@.len(),
            j <= n,
            match json_unescape(body@.skip(j as int)) {
                Some(rest) => json_unescape(body@) == Some(out@ + rest),
                None => json_unescape(body@) is None,
            },
        decreases n - j,
    {
        let ghost rem = body@.skip(j as int);
        let ghost prev = out@;
        let c = body[j];
        assert(rem[0] == c);
        if c == '\\' {
            if n - j < 2 {
                assert(rem.len() == 1);
                return None;
            }
            let c2 = body[j + 1];
            assert(rem[1] == c2);
            if is_short_escape_exec(c2) {
                let v = short_escape_value_exec(c2);
                out.push(v);
                proof {
                    assert(rem.skip(2) =~= body@.skip(j + 2));
                    if json_unescape(body@.skip(j + 2)) is Some {
                        let r2 = json_unescape(body@.skip(j + 2)).unwrap();
                        assert(json_unescape(rem) == Some(seq![v] + r2));
                        assert(prev + (seq![v] + r2) =~= out@ + r2);
                    }
                }
                j = j + 2;
            } else if c2 == 'u' {
                if n - j < 6 {
                    assert(rem.len() < 6);
                    return None;
                }
                let h1 = body[j + 2];
                let h2 = body[j + 3];
                let h3 = body[j + 4];
                let h4 = body[j + 5];
                assert(rem[2] == h1 && rem[3] == h2 && rem[4] == h3 && rem[5] == h4);
                if !(is_hex_digit_exec(h1) && is_hex_digit_exec(h2) && is_hex_digit_exec(h3)
                    && is_hex_digit_exec(h4)) {
                    return None;
                }
                let val = hex_val_exec(h1) * 4096 + hex_val_exec(h2) * 256 + hex_val_exec(h3) * 16
                    + hex_val_exec(h4);
                assert(val == hex4_val(h1, h2, h3, h4));
                if val < 0xD800 || val >= 0xE000 {
                    let decoded = char_from_u32(val).unwrap();
                    out.push(decoded);
                    proof {
                        vstd::utf8::char_u32_cast(decoded, val);
                        assert(rem.skip(6) =~= body@.skip(j + 6));
                        if json_unescape(body@.skip(j + 6)) is Some {
                            let r2 = json_unescape(body@.skip(j + 6)).unwrap();
                            assert(json_unescape(rem) == Some(seq![decoded] + r2));
                            assert(prev + (seq![decoded] + r2) =~= out@ + r2);
                        }
                    }
                    j = j + 6;
                } else if val <= 0xDBFF {
                    if n - j < 12 {
                        assert(rem.len() < 12);
                        return None;
                    }
                    if !(body[j + 6] == '\\' && body[j + 7] == 'u') {
                        assert(rem[6] == body@[j + 6] && rem[7] == body@[j + 7]);
                        return None;
                    }
                    let g1 = body[j + 8];
                    let g2 = body[j + 9];
                    let g3 = body[j + 10];
                    let g4 = body[j + 11];
                    assert(rem[6] == body@[j + 6] && rem[7] == body@[j + 7]);
                    assert(rem[8] == g1 && rem[9] == g2 && rem[10] == g3 && rem[11] == g4);
                    if !(is_hex_digit_exec(g1) && is_hex_digit_exec(g2) && is_hex_digit_exec(g3)
                        && is_hex_digit_exec(g4)) {
                        return None;
                    }
                    let w = hex_val_exec(g1) * 4096 + hex_val_exec(g2) * 256 + hex_val_exec(g3)
                        * 16 + hex_val_exec(g4);
                    assert(w == hex4_val(g1, g2, g3, g4));
                    if !(w >= 0xDC00 && w <= 0xDFFF) {
                        return None;
                    }
                    let scalar = 0x10000 + (val - 0xD800) * 0x400 + (w - 0xDC00);
                    assert(scalar == surrogate_pair_val(val as int, w as int));
                    let decoded = char_from_u32(scalar).unwrap();
                    out.push(decoded);
                    proof {
                        vstd::utf8::char_u32_cast(decoded, scalar);
                        assert(rem.skip(12) =~= body@.skip(j + 12));
                        if json_unescape(body@.skip(j + 12)) is Some {
                            let r2 = json_unescape(body@.skip(j + 12)).unwrap();
                            assert(json_unescape(rem) == Some(seq![decoded] + r2));
                            assert(prev + (seq![decoded] + r2) =~= out@ + r2);
                        }
                    }
                    j = j + 12;
                } else {
                    assert(!is_unicode_scalar(val) && !is_high_surrogate(val as int));
                    return None;
                }
            } else {
                assert(!is_short_escape(rem[1]) && rem[1] != 'u');
                return None;
            }
        } else if c == '"' || (c as u32) < 0x20 {
            return None;
        } else {
            out.push(c);
            proof {
                assert(rem.skip(1) =~= body@.skip(j + 1));
                if json_unescape(body@.skip(j + 1)) is Some {
                    let r2 = json_unescape(body@.skip(j + 1)).unwrap();
                    assert(json_unescape(rem) == Some(seq![c] + r2));
                    assert(prev + (seq![c] + r2) =~= out@ + r2);
                }
            }
            j = j + 1;
        }
    }
    proof {
        assert(body@.skip(n as int) =~= Seq::<char>::empty());
        assert(out@ + Seq::<char>::empty() =~= out@);
    }
    Some(out)
}

/// Parse the remainder of a JSON string literal body, from `pos` up to
/// and including its closing quote; yields the decoded text and the
/// position just after the quote.
pub open spec fn parse_string_body(t: Seq<char>, pos: int) -> Option<(Seq<char>, int)>
    decreases t.len() - pos,
{
    if pos >= t.len() {
        None
    } else if t[pos] == '"' {
        Some((Seq::<char>::empty(), pos + 1))
    } else if t[pos] == '\\' {
        if pos + 2 <= t.len() && is_short_escape(t[pos + 1]) {
            match parse_string_body(t, pos + 2) {
                Some(p) => Some((seq![short_escape_value(t[pos + 1])] + p.0, p.1)),
                None => None,
            }
        } else if pos + 6 <= t.len() && t[pos + 1] == 'u' && is_hex_digit(t[pos + 2])
            && is_hex_digit(t[pos + 3]) && is_hex_digit(t[pos + 4]) && is_hex_digit(t[pos + 5]) {
            let v = hex4_val(t[pos + 2], t[pos + 3], t[pos + 4], t[pos + 5]);
            if is_unicode_scalar(v as u32) {
                match parse_string_body(t, pos + 6) {
                    Some(p) => Some((seq![(v as u32) as char] + p.0, p.1)),
                    None => None,
                }
            } else if is_high_surrogate(v) && pos + 12 <= t.len() && t[pos + 6] == '\\' && t[pos
                + 7] == 'u' && is_hex_digit(t[pos + 8]) && is_hex_digit(t[pos + 9]) && is_hex_digit(
                t[pos + 10],
            ) && is_hex_digit(t[pos + 11]) && is_low_surrogate(
                hex4_val(t[pos + 8], t[pos + 9], t[pos + 10], t[pos + 11]),
            ) {
                let w = hex4_val(t[pos + 8], t[pos + 9], t[pos + 10], t[pos + 11]);
                match parse_string_body(t, pos + 12) {
                    Some(p) => Some((seq![(surrogate_pair_val(v, w) as u32) as char] + p.0, p.1)),
                    None => None,
                }
            } else {
                None
            }
        } else {
            None
        }
    } else if (t[pos] as u32) < 0x20 {
        None
    } else {
        match parse_string_body(t, pos + 1) {
            Some(p) => Some((seq![t[pos]] + p.0, p.1)),
            None => None,
        }
    }
}

/// Parse a complete JSON string literal standing at `pos`, opening
/// quote included.
pub open spec fn parse_string(t: Seq<char>, pos: int) -> Option<(Seq<char>, int)> {
    if pos < t.len() && t[pos] == '"' {
        parse_string_body(t, pos + 1)
    } else {
        None
    }
}

/// A parsed string body always makes progress and stays inside the text.
pub proof fn lemma_parse_string_body_bounds(t: Seq<char>, pos: int)
    ensures
        parse_string_body(t, pos) matches Some(p) ==> pos < p.1 <= t.len(),
    decreases t.len() - pos,
{
    if pos >= t.len() {
    } else if t[pos] == '"' {
    } else if t[pos] == '\\' {
        if pos + 2 <= t.len() {
            lemma_parse_string_body_bounds(t, pos + 2);
        }
        if pos + 6 <= t.len() {
            lemma_parse_string_body_bounds(t, pos + 6);
        }
        if pos + 12 <= t.len() {
            lemma_parse_string_body_bounds(t, pos + 12);
        }
    } else {
        lemma_parse_string_body_bounds(t, pos + 1);
    }
}

/// A parsed string literal always makes progress and stays inside the text.
pub proof fn lemma_parse_string_bounds(t: Seq<char>, pos: int)
    ensures
        parse_string(t, pos) matches Some(p) ==> pos < p.1 <= t.len(),
{
    if pos < t.len() && t[pos] == '"' {
        lemma_parse_string_body_bounds(t, pos + 1);
    }
}

/// Parse the JSON string literal standing at `pos` in `cs`. Returns the
/// decoded text and the position after the closing quote, or None
/// exactly when the spec-level parser rejects.
pub fn parse_string_exec(cs: &Vec<char>, pos: usize) -> (r: Option<(Vec<char>, usize)>)
    requires
        pos <= cs@.len(),
    ensures
        match r {
            Some(p) => parse_string(cs@, pos as int) == Some((p.0@, p.1 as int)) && pos < p.1
                <= cs@.len(),
            None => parse_string(cs@, pos as int) is None,
        },
{
    let n = cs.len();
    if pos >= n {
        return None;
    }
    if cs[pos] != '"' {
        return None;
    }
    let mut out: Vec<char> = Vec::new();
    let mut j: usize = pos + 1;
    loop
        invariant
            n == cs@.len(),
            pos < n,
            cs@[pos as int] == '"',
            pos + 1 <= j <= n,
            parse_string(cs@, pos as int) == parse_string_body(cs@, pos + 1),
            match parse_string_body(cs@, j as int) {
                Some(p) => parse_string_body(cs@, pos + 1) == Some((out@ + p.0, p.1)),
                None => parse_string_body(cs@, pos + 1) is None,
            },
        decreases n - j,
    {
        if j >= n {
            return None;
        }
        let ghost prev = out@;
        let c = cs[j];
        if c == '"' {
            proof {
                assert(parse_string_body(cs@, j as int) == Some((Seq::<char>::empty(), j + 1)));
                assert(out@ + Seq::<char>::empty() =~= out@);
                lemma_parse_string_body_bounds(cs@, pos + 1);
            }
            return Some((out, j + 1));
        } else if c == '\\' {
            if n - j < 2 {
                return None;
            }
            let c2 = cs[j + 1];
            if is_short_escape_exec(c2) {
                let v = short_escape_value_exec(c2);
                out.push(v);
                proof {
                    if parse_string_body(cs@, j + 2) is Some {
                        let p2 = parse_string_body(cs@, j + 2).unwrap();
                        assert(parse_string_body(cs@, j as int) == Some((seq![v] + p2.0, p2.1)));
                        assert(prev + (seq![v] + p2.0) =~= out@ + p2.0);
                    }
                }
                j = j + 2;
            } else if c2 == 'u' {
                if n - j < 6 {
                    return None;
                }
                let h1 = cs[j + 2];
                let h2 = cs[j + 3];
                let h3 = cs[j + 4];
                let h4 = cs[j + 5];
                if !(is_hex_digit_exec(h1) && is_hex_digit_exec(h2) && is_hex_digit_exec(h3)
                    && is_hex_digit_exec(h4)) {
                    return None;
                }
                let val = hex_val_exec(h1) * 4096 + hex_val_exec(h2) * 256 + hex_val_exec(h3) * 16
                    + hex_val_exec(h4);
                assert(val == hex4_val(h1, h2, h3, h4));
                if val < 0xD800 || val >= 0xE000 {
                    let decoded = char_from_u32(val).unwrap();
                    out.push(decoded);
                    proof {
                        vstd::utf8::char_u32_cast(decoded, val);
                        if parse_string_body(cs@, j + 6) is Some {
                            let p2 = parse_string_body(cs@, j + 6).unwrap();
                            assert(parse_string_body(cs@, j as int) == Some(
                                (seq![decoded] + p2.0, p2.1),
                            ));
                            assert(prev + (seq![decoded] + p2.0) =~= out@ + p2.0);
                        }
                    }
                    j = j + 6;
                } else if val <= 0xDBFF {
                    if n - j < 12 {
                        return None;
                    }
                    if !(cs[j + 6] == '\\' && cs[j + 7] == 'u') {
                        return None;
                    }
                    let g1 = cs[j + 8];
                    let g2 = cs[j + 9];
                    let g3 = cs[j + 10];
                    let g4 = cs[j + 11];
                    if !(is_hex_digit_exec(g1) && is_hex_digit_exec(g2) && is_hex_digit_exec(g3)
                        && is_hex_digit_exec(g4)) {
                        return None;
                    }
                    let w = hex_val_exec(g1) * 4096 + hex_val_exec(g2) * 256 + hex_val_exec(g3)
                        * 16 + hex_val_exec(g4);
                    assert(w == hex4_val(g1, g2, g3, g4));
                    if !(w >= 0xDC00 && w <= 0xDFFF) {
                        return None;
                    }
                    let scalar = 0x10000 + (val - 0xD800) * 0x400 + (w - 0xDC00);
                    assert(scalar == surrogate_pair_val(val as int, w as int));
                    let decoded = char_from_u32(scalar).unwrap();
                    out.push(decoded);
                    proof {
                        vstd::utf8::char_u32_cast(decoded, scalar);
                        if parse_string_body(cs@, j + 12) is Some {
                            let p2 = parse_string_body(cs@, j + 12).unwrap();
                            assert(parse_string_body(cs@, j as int) == Some(
                                (seq![decoded] + p2.0, p2.1),
                            ));
                            assert(prev + (seq![decoded] + p2.0) =~= out@ + p2.0);
                        }
                    }
                    j = j + 12;
                } else {
                    assert(!is_unicode_scalar(val) && !is_high_surrogate(val as int));
                    return None;
                }
            } else {
                return None;
            }
        } else if (c as u32) < 0x20 {
            return None;
        } else {
            out.push(c);
            proof {
                if parse_string_body(cs@, j + 1) is Some {
                    let p2 = parse_string_body(cs@, j + 1).unwrap();
                    assert(parse_string_body(cs@, j as int) == Some((seq![c] + p2.0, p2.1)));
                    assert(prev + (seq![c] + p2.0) =~= out@ + p2.0);
                }
            }
            j = j + 1;
        }
    }
}

/// Decode a complete JSON string literal. Returns the string it encodes,
/// or None exactly when the input is not such a literal.
pub fn json_decode_string(t: &str) -> (r: Option<String>)
    ensures
        match r {
            Some(s) => json_decode_spec(t@) == Some(s@),
            None => json_decode_spec(t@) is None,
        },
{
    let cs = to_chars(t);
    let n = cs.len();
    if n < 2 {
        return None;
    }
    if !(cs[0] == '"' && cs[n - 1] == '"') {
        return None;
    }
    let mut body: Vec<char> = Vec::new();
    let mut i: usize = 1;
    while i < n - 1
        invariant
            cs@ == t@,
            n == cs@.len(),
            2 <= n,
            1 <= i <= n - 1,
            body@ == cs@.subrange(1, i as int),
        decreases n - i,
    {
        body.push(cs[i]);
        proof {
            assert(cs@.subrange(1, i + 1) =~= cs@.subrange(1, i as int).push(cs@[i as int]));
        }
        i += 1;
    }
    assert(body@ =~= t@.subrange(1, t@.len() - 1));
    match unescape_chars(&body) {
        Some(v) => Some(from_chars(&v)),
        None => None,
    }
}

} // verus!
