//! JSON string escaping and unescaping, at the character level.
//!
//! The transcript file and the outbound request body both carry free-form
//! text inside JSON string literals.  This module defines the canonical
//! escaping this crate writes (`\"`, `\\`, `\n`, `\r`, `\t`, and `\u00XX`
//! for the remaining control characters) and a parser that reads every
//! standard JSON escape, `\uXXXX` and surrogate pairs included, and proves
//! that unescaping inverts escaping for every string.
use vstd::prelude::*;

verus! {

/// The hexadecimal digit character for a value below 16 (lower case).
pub open spec fn hex_char(d: nat) -> char {
    if d == 0 {
        '0'
    } else if d == 1 {
        '1'
    } else if d == 2 {
        '2'
    } else if d == 3 {
        '3'
    } else if d == 4 {
        '4'
    } else if d == 5 {
        '5'
    } else if d == 6 {
        '6'
    } else if d == 7 {
        '7'
    } else if d == 8 {
        '8'
    } else if d == 9 {
        '9'
    } else if d == 10 {
        'a'
    } else if d == 11 {
        'b'
    } else if d == 12 {
        'c'
    } else if d == 13 {
        'd'
    } else if d == 14 {
        'e'
    } else {
        'f'
    }
}

/// The value of a hexadecimal digit character, lower or upper case.
pub open spec fn unhex(c: char) -> Option<nat> {
    if '0' <= c && c <= '9' {
        Some((c as nat - '0' as nat) as nat)
    } else if 'a' <= c && c <= 'f' {
        Some((c as nat - 'a' as nat + 10) as nat)
    } else if 'A' <= c && c <= 'F' {
        Some((c as nat - 'A' as nat + 10) as nat)
    } else {
        None
    }
}

/// How one character is written inside a JSON string literal.
pub open spec fn esc_char(c: char) -> Seq<char> {
    if c == '"' {
        seq!['\\', '"']
    } else if c == '\\' {
        seq!['\\', '\\']
    } else if c == '\n' {
        seq!['\\', 'n']
    } else if c == '\r' {
        seq!['\\', 'r']
    } else if c == '\t' {
        seq!['\\', 't']
    } else if (c as nat) < 32 {
        seq!['\\', 'u', '0', '0', hex_char((c as nat) / 16), hex_char((c as nat) % 16)]
    } else {
        seq![c]
    }
}

/// How a whole string is written inside a JSON string literal.
pub open spec fn esc_string(s: Seq<char>) -> Seq<char>
    decreases s.len(),
{
    if s.len() == 0 {
        Seq::empty()
    } else {
        esc_char(s[0]) + esc_string(s.skip(1))
    }
}

/// Reads a JSON string body up to and including its closing quote:
/// the decoded text and what follows the quote, or `None` if the input
/// is exhausted or malformed first.
pub open spec fn parse_string_body(s: Seq<char>) -> Option<(Seq<char>, Seq<char>)>
    decreases s.len(),
{
    if s.len() == 0 {
        None
    } else if s[0] == '"' {
        Some((Seq::empty(), s.skip(1)))
    } else if s[0] == '\\' {
        if s.len() < 2 {
            None
        } else {
            match esc_payload(s) {
                None => None,
                Some((c, k)) => match parse_string_body(s.skip(k as int)) {
                    None => None,
                    Some((t, rest)) => Some((seq![c] + t, rest)),
                },
            }
        }
    } else if (s[0] as nat) < 32 {
        None
    } else {
        match parse_string_body(s.skip(1)) {
            None => None,
            Some((t, rest)) => Some((seq![s[0]] + t, rest)),
        }
    }
}

/// Decodes the escape sequence at the head of `s` (which starts with a
/// backslash): the character it denotes and how many input characters it
/// spans.
pub open spec fn esc_payload(s: Seq<char>) -> Option<(char, nat)> {
    if s.len() < 2 {
        None
    } else if s[1] == '"' {
        Some(('"', 2))
    } else if s[1] == '\\' {
        Some(('\\', 2))
    } else if s[1] == '/' {
        Some(('/', 2))
    } else if s[1] == 'b' {
        Some(((8u8) as char, 2))
    } else if s[1] == 'f' {
        Some(((12u8) as char, 2))
    } else if s[1] == 'n' {
        Some(('\n', 2))
    } else if s[1] == 'r' {
        Some(('\r', 2))
    } else if s[1] == 't' {
        Some(('\t', 2))
    } else if s[1] == 'u' {
        unicode_payload(s)
    } else {
        None
    }
}

/// Decodes a `\uXXXX` escape at the head of `s`: a scalar value outside the
/// surrogate range stands for itself, and a high surrogate must be followed
/// by a second escape carrying the low surrogate of the pair.
pub open spec fn unicode_payload(s: Seq<char>) -> Option<(char, nat)> {
    if s.len() >= 6 && unhex(s[2]) is Some && unhex(s[3]) is Some && unhex(s[4]) is Some && unhex(
        s[5],
    ) is Some {
        let v = unhex(s[2]).unwrap() * 4096 + unhex(s[3]).unwrap() * 256 + unhex(s[4]).unwrap()
            * 16 + unhex(s[5]).unwrap();
        if v < 0xD800 || v > 0xDFFF {
            Some(((v as char), 6))
        } else if v <= 0xDBFF {
            if s.len() >= 12 && s[6] == '\\' && s[7] == 'u' && unhex(s[8]) is Some && unhex(
                s[9],
            ) is Some && unhex(s[10]) is Some && unhex(s[11]) is Some {
                let w = unhex(s[8]).unwrap() * 4096 + unhex(s[9]).unwrap() * 256 + unhex(
                    s[10],
                ).unwrap() * 16 + unhex(s[11]).unwrap();
                if 0xDC00 <= w && w <= 0xDFFF {
                    Some((((0x10000 + (v - 0xD800) * 0x400 + (w - 0xDC00)) as char), 12))
                } else {
                    None
                }
            } else {
                None
            }
        } else {
            None
        }
    } else {
        None
    }
}

/// A valid scalar value cast to a character is the character with that
/// scalar value.
proof fn lemma_scalar_char_id(x: nat, c: char)
    requires
        x == c as nat,
        x < 0xD800 || (0xE000 <= x && x < 0x110000),
    ensures
        (x as char) == c,
{
    vstd::utf8::char_u32_cast(c, c as u32);
}

/// Relies on `char::from_u32`: a valid scalar value outside the surrogate
/// range is exactly the character with that value.
#[verifier::external_body]
fn char_from_u32(v: u32) -> (c: char)
    requires
        v < 0xD800 || (0xE000 <= v && v < 0x110000),
    ensures
        c as u32 == v,
{
    char::from_u32(v).unwrap()
}

/// Casting a character to `u32` keeps its scalar value.
proof fn lemma_char_u32_nat(c: char)
    ensures
        ((c as u32)) as nat == c as nat,
{
}

/// Escaping distributes over concatenation.
pub proof fn lemma_esc_append(a: Seq<char>, b: Seq<char>)
    ensures
        esc_string(a + b) == esc_string(a) + esc_string(b),
    decreases a.len(),
{
    if a.len() == 0 {
        assert(a + b =~= b);
        assert(esc_string(a) + esc_string(b) =~= esc_string(b));
    } else {
        assert((a + b).skip(1) =~= a.skip(1) + b);
        lemma_esc_append(a.skip(1), b);
        assert(esc_char((a + b)[0]) == esc_char(a[0]));
        assert(esc_string(a) + esc_string(b) =~= esc_char(a[0]) + (esc_string(a.skip(1))
            + esc_string(b)));
    }
}

/// Unescaping inverts escaping: reading an escaped string followed by its
/// closing quote yields the original text and leaves the remainder intact.
pub proof fn lemma_esc_roundtrip(s: Seq<char>, rest: Seq<char>)
    ensures
        parse_string_body(esc_string(s) + seq!['"'] + rest) == Some((s, rest)),
    decreases s.len(),
{
    let input = esc_string(s) + seq!['"'] + rest;
    if s.len() == 0 {
        assert(input =~= seq!['"'] + rest);
        assert(input[0] == '"');
        assert(input.skip(1) =~= rest);
    } else {
        let c = s[0];
        let e = esc_char(c);
        let tail_in = esc_string(s.skip(1)) + seq!['"'] + rest;
        assert(input =~= e + tail_in);
        lemma_esc_roundtrip(s.skip(1), rest);
        if c == '"' || c == '\\' || c == '\n' || c == '\r' || c == '\t' {
            assert(e.len() == 2);
            assert(input[0] == '\\');
            assert(input[1] == e[1]);
            assert(esc_payload(input) == Some((c, 2nat)));
            assert(input.skip(2) =~= tail_in);
            assert(seq![c] + s.skip(1) =~= s);
        } else if (c as nat) < 32 {
            assert(e.len() == 6);
            assert(input[0] == '\\');
            assert(input[1] == 'u');
            assert(input[2] == '0');
            assert(input[3] == '0');
            let hi = (c as nat) / 16;
            let lo = (c as nat) % 16;
            assert(input[4] == hex_char(hi));
            assert(input[5] == hex_char(lo));
            assert(unhex(hex_char(hi)) == Some(hi));
            assert(unhex(hex_char(lo)) == Some(lo));
            assert(unhex('0') == Some(0nat));
            assert(hi * 16 + lo == c as nat);
            lemma_scalar_char_id(hi * 16 + lo, c);
            assert((0nat * 4096 + 0nat * 256 + hi * 16 + lo) == hi * 16 + lo);
            assert(unicode_payload(input) == Some((c, 6nat)));
            assert(esc_payload(input) == Some((c, 6nat)));
            assert(input.skip(6) =~= tail_in);
            assert(seq![c] + s.skip(1) =~= s);
        } else {
            assert(e.len() == 1);
            assert(input[0] == c);
            assert(c != '"' && c != '\\');
            assert(input.skip(1) =~= tail_in);
            assert(seq![c] + s.skip(1) =~= s);
        }
    }
}

/// Relies on `String`'s `FromIterator` implementation: collecting characters
/// yields the string of exactly those characters, in order.
#[verifier::external_body]
pub fn chars_to_string(v: &Vec<char>) -> (r: String)
    ensures
        r@ == v@,
{
    v.iter().collect()
}

/// The characters of `s`, one by one.
pub fn string_to_chars(s: &str) -> (r: Vec<char>)
    ensures
        r@ == s@,
{
    let n = s.unicode_len();
    let mut v: Vec<char> = Vec::new();
    let mut i: usize = 0;
    while i < n
        invariant
            i <= n,
            n == s@.len(),
            v@ == s@.take(i as int),
        decreases n - i,
    {
        let c = s.get_char(i);
        v.push(c);
        proof {
            assert(s@.take(i + 1) =~= s@.take(i as int).push(s@[i as int]));
        }
        i = i + 1;
    }
    proof {
        assert(s@.take(n as int) =~= s@);
    }
    v
}

/// The hexadecimal digit character for a value below 16.
pub fn hex_char_exec(d: u8) -> (c: char)
    requires
        d < 16,
    ensures
        c == hex_char(d as nat),
{
    if d == 0 {
        '0'
    } else if d == 1 {
        '1'
    } else if d == 2 {
        '2'
    } else if d == 3 {
        '3'
    } else if d == 4 {
        '4'
    } else if d == 5 {
        '5'
    } else if d == 6 {
        '6'
    } else if d == 7 {
        '7'
    } else if d == 8 {
        '8'
    } else if d == 9 {
        '9'
    } else if d == 10 {
        'a'
    } else if d == 11 {
        'b'
    } else if d == 12 {
        'c'
    } else if d == 13 {
        'd'
    } else if d == 14 {
        'e'
    } else {
        'f'
    }
}

/// The value of a hexadecimal digit character, or `None`.
pub fn unhex_exec(c: char) -> (r: Option<u8>)
    ensures
        match r {
            Some(d) => unhex(c) == Some(d as nat) && d < 16,
            None => unhex(c) is None,
        },
{
    if '0' <= c && c <= '9' {
        Some((c as u8) - ('0' as u8))
    } else if 'a' <= c && c <= 'f' {
        Some((c as u8) - ('a' as u8) + 10)
    } else if 'A' <= c && c <= 'F' {
        Some((c as u8) - ('A' as u8) + 10)
    } else {
        None
    }
}

/// Appends the escaped form of `c` to `out`.
pub fn push_escaped_char(out: &mut Vec<char>, c: char)
    ensures
        final(out)@ == old(out)@ + esc_char(c),
{
    if c == '"' {
        out.push('\\');
        out.push('"');
        assert(out@ =~= old(out)@ + esc_char(c));
    } else if c == '\\' {
        out.push('\\');
        out.push('\\');
        assert(out@ =~= old(out)@ + esc_char(c));
    } else if c == '\n' {
        out.push('\\');
        out.push('n');
        assert(out@ =~= old(out)@ + esc_char(c));
    } else if c == '\r' {
        out.push('\\');
        out.push('r');
        assert(out@ =~= old(out)@ + esc_char(c));
    } else if c == '\t' {
        out.push('\\');
        out.push('t');
        assert(out@ =~= old(out)@ + esc_char(c));
    } else if (c as u32) < 32 {
        let b = c as u8;
        out.push('\\');
        out.push('u');
        out.push('0');
        out.push('0');
        out.push(hex_char_exec(b / 16));
        out.push(hex_char_exec(b % 16));
        assert(b as nat == c as nat);
        assert(out@ =~= old(out)@ + esc_char(c));
    } else {
        out.push(c);
        assert(out@ =~= old(out)@ + esc_char(c));
    }
}

/// Appends the escaped form of the whole string `s` to `out`.
pub fn push_escaped(out: &mut Vec<char>, s: &str)
    ensures
        final(out)@ == old(out)@ + esc_string(s@),
{
    let n = s.unicode_len();
    let mut i: usize = 0;
    while i < n
        invariant
            n == s@.len(),
            i <= n,
            out@ == old(out)@ + esc_string(s@.take(i as int)),
        decreases n - i,
    {
        let c = s.get_char(i);
        push_escaped_char(out, c);
        proof {
            lemma_esc_append(s@.take(i as int), seq![s@[i as int]]);
            assert(s@.take(i + 1) =~= s@.take(i as int) + seq![s@[i as int]]);
            assert(seq![s@[i as int]].skip(1) =~= Seq::<char>::empty());
            assert(esc_string(Seq::<char>::empty()) == Seq::<char>::empty());
            assert(esc_string(seq![s@[i as int]]) =~= esc_char(s@[i as int]));
            assert(old(out)@ + esc_string(s@.take(i as int)) + esc_char(s@[i as int]) =~= old(
                out,
            )@ + esc_string(s@.take(i + 1)));
        }
        i = i + 1;
    }
    assert(s@.take(n as int) =~= s@);
}

/// Decodes the `\uXXXX` escape whose backslash stands at `j`: the character
/// and how many input characters it spans.
fn decode_unicode_escape(s: &Vec<char>, j: usize) -> (r: Option<(char, usize)>)
    requires
        j + 2 <= s@.len(),
        s@[j as int] == '\\',
        s@[j + 1] == 'u',
    ensures
        (match r {
            Some((c, k)) => unicode_payload(s@.skip(j as int)) == Some((c, k as nat)) && 2 <= k
                <= s@.len() - j,
            None => unicode_payload(s@.skip(j as int)) is None,
        }),
{
    let ghost suf = s@.skip(j as int);
    proof {
        assert(suf.len() == s@.len() - j);
        assert(forall|m: int| 0 <= m < suf.len() ==> suf[m] == s@[j + m]);
    }
    if s.len() - j < 6 {
        return None;
    }
    let (d2, d3, d4, d5) = match (
        unhex_exec(s[j + 2]),
        unhex_exec(s[j + 3]),
        unhex_exec(s[j + 4]),
        unhex_exec(s[j + 5]),
    ) {
        (Some(a), Some(b), Some(c), Some(d)) => (a, b, c, d),
        _ => {
            return None;
        },
    };
    let v: u32 = (d2 as u32) * 4096 + (d3 as u32) * 256 + (d4 as u32) * 16 + (d5 as u32);
    let ghost vspec = unhex(suf[2]).unwrap() * 4096 + unhex(suf[3]).unwrap() * 256 + unhex(
        suf[4],
    ).unwrap() * 16 + unhex(suf[5]).unwrap();
    assert(v as nat == vspec);
    if v < 0xD800 || v > 0xDFFF {
        assert(v <= 0xFFFF);
        let c = char_from_u32(v);
        proof {
            lemma_char_u32_nat(c);
            lemma_scalar_char_id(vspec, c);
        }
        return Some((c, 6));
    }
    if v > 0xDBFF {
        return None;
    }
    if s.len() - j < 12 {
        return None;
    }
    if !(s[j + 6] == '\\' && s[j + 7] == 'u') {
        return None;
    }
    let (e2, e3, e4, e5) = match (
        unhex_exec(s[j + 8]),
        unhex_exec(s[j + 9]),
        unhex_exec(s[j + 10]),
        unhex_exec(s[j + 11]),
    ) {
        (Some(a), Some(b), Some(c), Some(d)) => (a, b, c, d),
        _ => {
            return None;
        },
    };
    let w: u32 = (e2 as u32) * 4096 + (e3 as u32) * 256 + (e4 as u32) * 16 + (e5 as u32);
    let ghost wspec = unhex(suf[8]).unwrap() * 4096 + unhex(suf[9]).unwrap() * 256 + unhex(
        suf[10],
    ).unwrap() * 16 + unhex(suf[11]).unwrap();
    assert(w as nat == wspec);
    if !(0xDC00 <= w && w <= 0xDFFF) {
        return None;
    }
    let code: u32 = 0x10000 + (v - 0xD800) * 0x400 + (w - 0xDC00);
    assert(code as nat == 0x10000 + (vspec - 0xD800) * 0x400 + (wspec - 0xDC00));
    let c = char_from_u32(code);
    proof {
        lemma_char_u32_nat(c);
        lemma_scalar_char_id(code as nat, c);
    }
    Some((c, 12))
}

/// Decodes the escape sequence whose backslash stands at `j`: the character
/// it denotes and how many input characters it spans.
fn decode_escape(s: &Vec<char>, j: usize) -> (r: Option<(char, usize)>)
    requires
        j + 1 < s@.len(),
        s@[j as int] == '\\',
    ensures
        (match r {
            Some((c, k)) => esc_payload(s@.skip(j as int)) == Some((c, k as nat)) && 2 <= k
                <= s@.len() - j,
            None => esc_payload(s@.skip(j as int)) is None,
        }),
{
    let ghost suf = s@.skip(j as int);
    let n = s.len();
    proof {
        assert(j + 1 < n);
        assert(suf.len() >= 2);
        assert(suf[0] == s@[j as int] && suf[1] == s@[j + 1]);
    }
    let e = s[j + 1];
    if e == '"' || e == '\\' || e == '/' {
        Some((e, 2))
    } else if e == 'b' {
        Some((8u8 as char, 2))
    } else if e == 'f' {
        Some((12u8 as char, 2))
    } else if e == 'n' {
        Some(('\n', 2))
    } else if e == 'r' {
        Some(('\r', 2))
    } else if e == 't' {
        Some(('\t', 2))
    } else if e == 'u' {
        decode_unicode_escape(s, j)
    } else {
        None
    }
}

/// Reads a JSON string body from `s` starting at `i` (just past the opening
/// quote): the decoded text and the index just past the closing quote, or
/// `None` where the input is malformed or ends first.
pub fn parse_string_exec(s: &Vec<char>, i: usize) -> (r: Option<(Vec<char>, usize)>)
    requires
        i <= s@.len(),
    ensures
        match r {
            Some(p) => i <= p.1 <= s@.len() && parse_string_body(s@.skip(i as int)) == Some(
                (p.0@, s@.skip(p.1 as int)),
            ),
            None => parse_string_body(s@.skip(i as int)) is None,
        },
{
    let mut j: usize = i;
    let mut out: Vec<char> = Vec::new();
    loop
        invariant
            i <= j <= s@.len(),
            parse_string_body(s@.skip(i as int)) == (match parse_string_body(s@.skip(j as int)) {
                None => None::<(Seq<char>, Seq<char>)>,
                Some((t, rest)) => Some((out@ + t, rest)),
            }),
        decreases s@.len() - j,
    {
        let ghost suf = s@.skip(j as int);
        if j >= s.len() {
            assert(suf.len() == 0);
            return None;
        }
        let c = s[j];
        assert(suf[0] == c);
        if c == '"' {
            assert(suf.skip(1) =~= s@.skip(j + 1));
            assert(parse_string_body(suf) == Some((Seq::<char>::empty(), s@.skip(j + 1))));
            assert(out@ + Seq::<char>::empty() =~= out@);
            return Some((out, j + 1));
        } else if c == '\\' {
            if j + 1 >= s.len() {
                assert(suf.len() < 2);
                assert(parse_string_body(suf) is None);
                return None;
            }
            match decode_escape(s, j) {
                None => {
                    assert(esc_payload(suf) is None);
                    assert(parse_string_body(suf) is None);
                    return None;
                },
                Some((dc, k)) => {
                    assert(esc_payload(suf) == Some((dc, k as nat)));
                    assert(2 <= k <= suf.len());
                    let ghost prev = out@;
                    out.push(dc);
                    proof {
                        assert(out@ =~= prev + seq![dc]);
                        assert(suf.skip(k as int) =~= s@.skip(j + k));
                        assert(parse_string_body(suf) == (match parse_string_body(
                            s@.skip(j + k),
                        ) {
                            None => None::<(Seq<char>, Seq<char>)>,
                            Some((t, rest)) => Some((seq![dc] + t, rest)),
                        }));
                        match parse_string_body(s@.skip(j + k)) {
                            Some((t, rest)) => {
                                assert(prev + (seq![dc] + t) =~= out@ + t);
                                assert(parse_string_body(s@.skip(i as int)) == Some(
                                    (out@ + t, rest),
                                ));
                            },
                            None => {
                                assert(parse_string_body(s@.skip(i as int)) is None);
                            },
                        }
                    }
                    j = j + k;
                },
            }
        } else if (c as u32) < 32 {
            proof {
                lemma_char_u32_nat(c);
            }
            assert((c as nat) < 32);
            assert(parse_string_body(suf) is None);
            return None;
        } else {
            proof {
                lemma_char_u32_nat(c);
            }
            assert((c as nat) >= 32);
            let ghost prev = out@;
            out.push(c);
            proof {
                assert(out@ =~= prev + seq![c]);
                assert(suf.skip(1) =~= s@.skip(j + 1));
                assert(parse_string_body(suf) == (match parse_string_body(s@.skip(j + 1)) {
                    None => None::<(Seq<char>, Seq<char>)>,
                    Some((t, rest)) => Some((seq![c] + t, rest)),
                }));
                match parse_string_body(s@.skip(j + 1)) {
                    Some((t, rest)) => {
                        assert(prev + (seq![c] + t) =~= out@ + t);
                        assert(parse_string_body(s@.skip(i as int)) == Some((out@ + t, rest)));
                    },
                    None => {
                        assert(parse_string_body(s@.skip(i as int)) is None);
                    },
                }
            }
            j = j + 1;
        }
    }
}

} // verus!
