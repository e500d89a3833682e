//! JSON values and a verified codec.
//!
//! Strings are carried as their UTF-8 bytes: the codec never splits or
//! inspects multi-byte sequences, so arbitrary byte content round-trips, and
//! `\uXXXX` escapes — surrogate pairs included — decode to the code point's
//! UTF-8 bytes. Integers that fit `i64` become `Int`; every other lawful
//! JSON number (fractions, exponents, larger magnitudes) keeps its lexeme
//! verbatim as `Num`, so no numeric response is rejected or rounded.
//! The encoder emits canonical JSON without insignificant whitespace; the
//! parser additionally tolerates whitespace between tokens.

use vstd::prelude::*;

verus! {

/// A JSON value as exchanged with the worker process.
#[derive(Debug, PartialEq, Eq)]
pub enum JsonValue {
    Null,
    Bool(bool),
    Int(i64),
    Num(Vec<u8>),
    Str(Vec<u8>),
    Arr(Vec<JsonValue>),
    Obj(Vec<(Vec<u8>, JsonValue)>),
}

/// The mathematical model of a JSON value.
pub enum JVal {
    Null,
    Bool(bool),
    Int(int),
    Num(Seq<u8>),
    Str(Seq<u8>),
    Arr(Seq<JVal>),
    Obj(Seq<(Seq<u8>, JVal)>),
}

pub open spec fn jview_seq(s: Seq<JsonValue>) -> Seq<JVal>
    decreases s,
{
    if s.len() == 0 {
        Seq::empty()
    } else {
        jview_seq(s.drop_last()).push(s.last()@)
    }
}

pub open spec fn jview_members(s: Seq<(Vec<u8>, JsonValue)>) -> Seq<(Seq<u8>, JVal)>
    decreases s,
{
    if s.len() == 0 {
        Seq::empty()
    } else {
        jview_members(s.drop_last()).push((s.last().0@, s.last().1@))
    }
}

impl View for JsonValue {
    type V = JVal;

    open spec fn view(&self) -> JVal
        decreases self,
    {
        match self {
            JsonValue::Null => JVal::Null,
            JsonValue::Bool(b) => JVal::Bool(*b),
            JsonValue::Int(n) => JVal::Int(*n as int),
            JsonValue::Num(x) => JVal::Num(x@),
            JsonValue::Str(s) => JVal::Str(s@),
            JsonValue::Arr(a) => JVal::Arr(jview_seq(a@)),
            JsonValue::Obj(m) => JVal::Obj(jview_members(m@)),
        }
    }
}

/// Values the codec can write and read back: integers fit in `i64`, and a
/// kept numeric lexeme is a lawful JSON number that is not itself an
/// in-range integer (those are `Int`).
pub open spec fn wf(v: JVal) -> bool
    decreases v,
{
    match v {
        JVal::Null => true,
        JVal::Bool(_) => true,
        JVal::Int(n) => i64::MIN <= n <= i64::MAX,
        JVal::Num(lex) => num_token(lex) && !(plain_int_lexeme(lex) && int_of_lexeme(
            lex,
        ) is Some),
        JVal::Str(_) => true,
        JVal::Arr(es) => forall|i: int| 0 <= i < es.len() ==> wf(#[trigger] es[i]),
        JVal::Obj(ms) => forall|i: int| 0 <= i < ms.len() ==> wf(#[trigger] ms[i].1),
    }
}

// ---------------------------------------------------------------------------
// Canonical encoding (spec level)
// ---------------------------------------------------------------------------

pub open spec fn is_ws(b: u8) -> bool {
    b == 0x20 || b == 0x09 || b == 0x0a || b == 0x0d
}

pub open spec fn is_digit(b: u8) -> bool {
    0x30 <= b <= 0x39
}

pub open spec fn hex_digit(n: int) -> u8 {
    if n < 10 {
        (0x30 + n) as u8
    } else {
        (0x57 + n) as u8
    }
}

/// How one byte of a string appears inside a JSON string literal.
pub open spec fn esc_byte(b: u8) -> Seq<u8> {
    if b == 0x22 {
        seq![0x5cu8, 0x22u8]
    } else if b == 0x5c {
        seq![0x5cu8, 0x5cu8]
    } else if b < 0x20 {
        seq![0x5cu8, 0x75u8, 0x30u8, 0x30u8, hex_digit(b as int / 16), hex_digit(b as int % 16)]
    } else {
        seq![b]
    }
}

pub open spec fn esc_body(s: Seq<u8>) -> Seq<u8>
    decreases s.len(),
{
    if s.len() == 0 {
        Seq::empty()
    } else {
        esc_byte(s[0]) + esc_body(s.drop_first())
    }
}

pub open spec fn enc_str(s: Seq<u8>) -> Seq<u8> {
    seq![0x22u8] + esc_body(s) + seq![0x22u8]
}

/// The decimal digits of a non-negative integer, most significant first.
pub open spec fn dec_digits(n: int) -> Seq<u8>
    decreases n,
{
    if n < 10 {
        seq![(0x30 + if n >= 0 { n } else { 0 }) as u8]
    } else {
        dec_digits(n / 10) + seq![(0x30 + n % 10) as u8]
    }
}

pub open spec fn enc_int(n: int) -> Seq<u8> {
    if n < 0 {
        seq![0x2du8] + dec_digits(-n)
    } else {
        dec_digits(n)
    }
}

pub open spec fn null_bytes() -> Seq<u8> {
    seq![0x6eu8, 0x75u8, 0x6cu8, 0x6cu8]
}

pub open spec fn true_bytes() -> Seq<u8> {
    seq![0x74u8, 0x72u8, 0x75u8, 0x65u8]
}

pub open spec fn false_bytes() -> Seq<u8> {
    seq![0x66u8, 0x61u8, 0x6cu8, 0x73u8, 0x65u8]
}

pub open spec fn enc(v: JVal) -> Seq<u8>
    decreases v,
{
    match v {
        JVal::Null => null_bytes(),
        JVal::Bool(b) => if b {
            true_bytes()
        } else {
            false_bytes()
        },
        JVal::Int(n) => enc_int(n),
        JVal::Num(lex) => lex,
        JVal::Str(s) => enc_str(s),
        JVal::Arr(es) => if es.len() == 0 {
            seq![0x5bu8, 0x5du8]
        } else {
            seq![0x5bu8] + enc_elems(es) + seq![0x5du8]
        },
        JVal::Obj(ms) => if ms.len() == 0 {
            seq![0x7bu8, 0x7du8]
        } else {
            seq![0x7bu8] + enc_members(ms) + seq![0x7du8]
        },
    }
}

pub open spec fn enc_elems(es: Seq<JVal>) -> Seq<u8>
    decreases es,
{
    if es.len() == 0 {
        Seq::empty()
    } else if es.len() == 1 {
        enc(es[0])
    } else {
        enc(es[0]) + seq![0x2cu8] + enc_elems(es.drop_first())
    }
}

pub open spec fn enc_members(ms: Seq<(Seq<u8>, JVal)>) -> Seq<u8>
    decreases ms,
{
    if ms.len() == 0 {
        Seq::empty()
    } else if ms.len() == 1 {
        enc_str(ms[0].0) + seq![0x3au8] + enc(ms[0].1)
    } else {
        enc_str(ms[0].0) + seq![0x3au8] + enc(ms[0].1) + seq![0x2cu8] + enc_members(
            ms.drop_first(),
        )
    }
}

// ---------------------------------------------------------------------------
// Parser (spec level)
// ---------------------------------------------------------------------------

pub open spec fn ws_end(s: Seq<u8>, i: int) -> int
    decreases s.len() - i,
{
    if 0 <= i < s.len() && is_ws(s[i]) {
        ws_end(s, i + 1)
    } else {
        i
    }
}

/// Whitespace skip, clamped into `[i, s.len()]` so that callers can rely on
/// the bounds without a side lemma.
pub open spec fn wsb(s: Seq<u8>, i: int) -> int {
    let j = ws_end(s, i);
    if j < i {
        i
    } else if j > s.len() {
        s.len() as int
    } else {
        j
    }
}

pub open spec fn is_hex(b: u8) -> bool {
    is_digit(b) || 0x61 <= b <= 0x66 || 0x41 <= b <= 0x46
}

pub open spec fn hexval(b: u8) -> int {
    if is_digit(b) {
        b - 0x30
    } else if 0x61 <= b <= 0x66 {
        b - 0x57
    } else {
        b - 0x37
    }
}

/// The byte that a two-character escape stands for, if the escape is lawful.
pub open spec fn esc_char(c: u8) -> Option<u8> {
    if c == 0x22 {
        Some(0x22u8)
    } else if c == 0x5c {
        Some(0x5cu8)
    } else if c == 0x2f {
        Some(0x2fu8)
    } else if c == 0x6e {
        Some(0x0au8)
    } else if c == 0x74 {
        Some(0x09u8)
    } else if c == 0x72 {
        Some(0x0du8)
    } else if c == 0x62 {
        Some(0x08u8)
    } else if c == 0x66 {
        Some(0x0cu8)
    } else {
        None
    }
}

pub open spec fn parse_strbody(s: Seq<u8>, i: int) -> Option<(Seq<u8>, int)>
    decreases s.len() - i, 0int,
{
    if !(0 <= i < s.len()) {
        None
    } else {
        let b = s[i];
        if b == 0x22 {
            Some((Seq::empty(), i + 1))
        } else if b == 0x5c {
            if i + 1 < s.len() {
                let c = s[i + 1];
                if c == 0x75 {
                    if i + 6 <= s.len() && is_hex(s[i + 2]) && is_hex(s[i + 3]) && is_hex(s[i + 4])
                        && is_hex(s[i + 5]) {
                        let cp = hexquad(s, i + 2);
                        if 0xd800 <= cp <= 0xdbff {
                            // a high surrogate must pair with a low one
                            if i + 12 <= s.len() && s[i + 6] == 0x5c && s[i + 7] == 0x75 && is_hex(
                                s[i + 8],
                            ) && is_hex(s[i + 9]) && is_hex(s[i + 10]) && is_hex(s[i + 11]) {
                                let lo = hexquad(s, i + 8);
                                if 0xdc00 <= lo <= 0xdfff {
                                    let full = 0x10000 + (cp - 0xd800) * 0x400 + (lo - 0xdc00);
                                    match parse_strbody(s, i + 12) {
                                        Some((t, j)) => Some((utf8_bytes(full) + t, j)),
                                        None => None,
                                    }
                                } else {
                                    None
                                }
                            } else {
                                None
                            }
                        } else if 0xdc00 <= cp <= 0xdfff {
                            None
                        } else {
                            match parse_strbody(s, i + 6) {
                                Some((t, j)) => Some((utf8_bytes(cp) + t, j)),
                                None => None,
                            }
                        }
                    } else {
                        None
                    }
                } else {
                    match esc_char(c) {
                        Some(d) => match parse_strbody(s, i + 2) {
                            Some((t, j)) => Some((seq![d] + t, j)),
                            None => None,
                        },
                        None => None,
                    }
                }
            } else {
                None
            }
        } else {
            match parse_strbody(s, i + 1) {
                Some((t, j)) => Some((seq![b] + t, j)),
                None => None,
            }
        }
    }
}

/// Magnitude bound for decoded integers: one above `i64::MAX`.
pub open spec fn int_bound() -> int {
    0x8000_0000_0000_0000
}

pub open spec fn parse_uint(s: Seq<u8>, i: int, acc: int) -> (int, int)
    decreases s.len() - i,
{
    if 0 <= i < s.len() && is_digit(s[i]) {
        parse_uint(s, i + 1, acc * 10 + (s[i] - 0x30))
    } else {
        (acc, i)
    }
}

/// The value of four hexadecimal digits at `i`.
pub open spec fn hexquad(s: Seq<u8>, i: int) -> int {
    4096 * hexval(s[i]) + 256 * hexval(s[i + 1]) + 16 * hexval(s[i + 2]) + hexval(s[i + 3])
}

/// The UTF-8 bytes of one code point.
pub open spec fn utf8_bytes(cp: int) -> Seq<u8> {
    if cp < 0x80 {
        seq![cp as u8]
    } else if cp < 0x800 {
        seq![(0xc0 + cp / 64) as u8, (0x80 + cp % 64) as u8]
    } else if cp < 0x10000 {
        seq![(0xe0 + cp / 4096) as u8, (0x80 + (cp / 64) % 64) as u8, (0x80 + cp % 64) as u8]
    } else {
        seq![
            (0xf0 + cp / 262144) as u8,
            (0x80 + (cp / 4096) % 64) as u8,
            (0x80 + (cp / 64) % 64) as u8,
            (0x80 + cp % 64) as u8,
        ]
    }
}

/// The first position at or after `i` that does not hold a digit.
pub open spec fn digits_end(s: Seq<u8>, i: int) -> int
    decreases s.len() - i,
{
    if 0 <= i < s.len() && is_digit(s[i]) {
        digits_end(s, i + 1)
    } else {
        i
    }
}

/// Where a JSON number starting at `i` ends: optional sign, an integer part,
/// an optional fraction, an optional exponent. `None` if no lawful number
/// starts there.
pub open spec fn scan_number(s: Seq<u8>, i: int) -> Option<int> {
    let start = if 0 <= i < s.len() && s[i] == 0x2d {
        i + 1
    } else {
        i
    };
    if !(0 <= start < s.len() && is_digit(s[start])) {
        None
    } else {
        let after_int = digits_end(s, start);
        let frac = if after_int < s.len() && s[after_int] == 0x2e {
            if after_int + 1 < s.len() && is_digit(s[after_int + 1]) {
                Some(digits_end(s, after_int + 1))
            } else {
                None
            }
        } else {
            Some(after_int)
        };
        match frac {
            None => None,
            Some(af) => if af < s.len() && (s[af] == 0x65 || s[af] == 0x45) {
                let es = if af + 1 < s.len() && (s[af + 1] == 0x2b || s[af + 1] == 0x2d) {
                    af + 2
                } else {
                    af + 1
                };
                if es < s.len() && is_digit(s[es]) {
                    Some(digits_end(s, es))
                } else {
                    None
                }
            } else {
                Some(af)
            },
        }
    }
}

/// A number lexeme made of sign and digits alone, with no fraction or
/// exponent.
pub open spec fn plain_int_lexeme(lex: Seq<u8>) -> bool {
    let start = if lex.len() > 0 && lex[0] == 0x2d {
        1int
    } else {
        0int
    };
    digits_end(lex, start) == lex.len()
}

/// The `i64` a plain integer lexeme denotes, when it fits.
pub open spec fn int_of_lexeme(lex: Seq<u8>) -> Option<int> {
    if lex.len() > 0 && lex[0] == 0x2d {
        let m = parse_uint(lex, 1, 0).0;
        if m <= int_bound() {
            Some(-m)
        } else {
            None
        }
    } else {
        let m = parse_uint(lex, 0, 0).0;
        if m < int_bound() {
            Some(m)
        } else {
            None
        }
    }
}

/// A complete, lawful JSON number lexeme.
pub open spec fn num_token(lex: Seq<u8>) -> bool {
    scan_number(lex, 0) == Some(lex.len() as int)
}

/// Parse a number: an in-range plain integer becomes `Int`; any other lawful
/// number — fractions, exponents, magnitudes beyond `i64` — keeps its lexeme
/// as `Num`, re-encoded verbatim.
pub open spec fn parse_number(s: Seq<u8>, i: int) -> Option<(JVal, int)> {
    match scan_number(s, i) {
        None => None,
        Some(end) => {
            let start = if s[i] == 0x2d {
                i + 1
            } else {
                i
            };
            if digits_end(s, start) == end {
                let m = parse_uint(s, start, 0).0;
                if s[i] == 0x2d && m <= int_bound() {
                    Some((JVal::Int(-m), end))
                } else if s[i] != 0x2d && m < int_bound() {
                    Some((JVal::Int(m), end))
                } else {
                    Some((JVal::Num(s.subrange(i, end)), end))
                }
            } else {
                Some((JVal::Num(s.subrange(i, end)), end))
            }
        },
    }
}

pub open spec fn parse_value(s: Seq<u8>, i: int) -> Option<(JVal, int)>
    decreases s.len() - i, 2int,
{
    if !(0 <= i < s.len()) {
        None
    } else {
        let b = s[i];
        if b == 0x6e {
            if i + 4 <= s.len() && s.subrange(i, i + 4) == null_bytes() {
                Some((JVal::Null, i + 4))
            } else {
                None
            }
        } else if b == 0x74 {
            if i + 4 <= s.len() && s.subrange(i, i + 4) == true_bytes() {
                Some((JVal::Bool(true), i + 4))
            } else {
                None
            }
        } else if b == 0x66 {
            if i + 5 <= s.len() && s.subrange(i, i + 5) == false_bytes() {
                Some((JVal::Bool(false), i + 5))
            } else {
                None
            }
        } else if b == 0x22 {
            match parse_strbody(s, i + 1) {
                Some((t, j)) => Some((JVal::Str(t), j)),
                None => None,
            }
        } else if b == 0x2d || is_digit(b) {
            parse_number(s, i)
        } else if b == 0x5b {
            let j = wsb(s, i + 1);
            if j < s.len() && s[j] == 0x5d {
                Some((JVal::Arr(Seq::empty()), j + 1))
            } else {
                match parse_elems(s, j) {
                    Some((es, k)) => Some((JVal::Arr(es), k)),
                    None => None,
                }
            }
        } else if b == 0x7b {
            let j = wsb(s, i + 1);
            if j < s.len() && s[j] == 0x7d {
                Some((JVal::Obj(Seq::empty()), j + 1))
            } else {
                match parse_members(s, j) {
                    Some((ms, k)) => Some((JVal::Obj(ms), k)),
                    None => None,
                }
            }
        } else {
            None
        }
    }
}

pub open spec fn parse_elems(s: Seq<u8>, i: int) -> Option<(Seq<JVal>, int)>
    decreases s.len() - i, 3int,
{
    if !(0 <= i <= s.len()) {
        None
    } else {
        match parse_value(s, i) {
            Some((v, k)) => if !(i < k <= s.len()) {
                None
            } else {
                let k2 = wsb(s, k);
                if k2 < s.len() && s[k2] == 0x2c {
                    let k3 = wsb(s, k2 + 1);
                    match parse_elems(s, k3) {
                        Some((es, j)) => Some((seq![v] + es, j)),
                        None => None,
                    }
                } else if k2 < s.len() && s[k2] == 0x5d {
                    Some((seq![v], k2 + 1))
                } else {
                    None
                }
            },
            None => None,
        }
    }
}

pub open spec fn parse_members(s: Seq<u8>, i: int) -> Option<(Seq<(Seq<u8>, JVal)>, int)>
    decreases s.len() - i, 3int,
{
    if !(0 <= i < s.len() && s[i] == 0x22) {
        None
    } else {
        match parse_strbody(s, i + 1) {
            Some((key, k)) => if !(i < k <= s.len()) {
                None
            } else {
                let k1 = wsb(s, k);
                if k1 < s.len() && s[k1] == 0x3a {
                    let k2 = wsb(s, k1 + 1);
                    match parse_value(s, k2) {
                        Some((v, k3)) => if !(k2 < k3 <= s.len()) {
                            None
                        } else {
                            let k4 = wsb(s, k3);
                            if k4 < s.len() && s[k4] == 0x2c {
                                let k5 = wsb(s, k4 + 1);
                                match parse_members(s, k5) {
                                    Some((ms, j)) => Some((seq![(key, v)] + ms, j)),
                                    None => None,
                                }
                            } else if k4 < s.len() && s[k4] == 0x7d {
                                Some((seq![(key, v)], k4 + 1))
                            } else {
                                None
                            }
                        },
                        None => None,
                    }
                } else {
                    None
                }
            },
            None => None,
        }
    }
}

/// Parse a complete JSON document: one value, possibly surrounded by
/// whitespace, covering the whole input.
pub open spec fn parse_json(s: Seq<u8>) -> Option<JVal> {
    let i = wsb(s, 0);
    match parse_value(s, i) {
        Some((v, j)) => if 0 <= j <= s.len() && wsb(s, j) == s.len() {
            Some(v)
        } else {
            None
        },
        None => None,
    }
}

// ---------------------------------------------------------------------------
// Encoder
// ---------------------------------------------------------------------------

fn hexd(n: u8) -> (r: u8)
    requires
        n < 16,
    ensures
        r == hex_digit(n as int),
{
    if n < 10 {
        0x30 + n
    } else {
        0x57 + n
    }
}

fn push_esc_byte(b: u8, out: &mut Vec<u8>)
    ensures
        final(out)@ == old(out)@ + esc_byte(b),
{
    if b == 0x22 {
        out.push(0x5c);
        out.push(0x22);
    } else if b == 0x5c {
        out.push(0x5c);
        out.push(0x5c);
    } else if b < 0x20 {
        out.push(0x5c);
        out.push(0x75);
        out.push(0x30);
        out.push(0x30);
        out.push(hexd(b / 16));
        out.push(hexd(b % 16));
    } else {
        out.push(b);
    }
    assert(final(out)@ =~= old(out)@ + esc_byte(b));
}

fn push_str_body(s: &Vec<u8>, i: usize, out: &mut Vec<u8>)
    requires
        i <= s@.len(),
    ensures
        final(out)@ == old(out)@ + esc_body(s@.skip(i as int)),
    decreases s@.len() - i,
{
    if i < s.len() {
        push_esc_byte(s[i], out);
        push_str_body(s, i + 1, out);
        proof {
            assert(s@.skip(i as int).drop_first() =~= s@.skip(i + 1));
            assert(s@.skip(i as int)[0] == s@[i as int]);
            assert(final(out)@ =~= old(out)@ + esc_body(s@.skip(i as int)));
        }
    } else {
        proof {
            assert(s@.skip(i as int) =~= Seq::<u8>::empty());
            assert(final(out)@ =~= old(out)@ + esc_body(s@.skip(i as int)));
        }
    }
}

fn push_str(s: &Vec<u8>, out: &mut Vec<u8>)
    ensures
        final(out)@ == old(out)@ + enc_str(s@),
{
    out.push(0x22);
    push_str_body(s, 0, out);
    out.push(0x22);
    proof {
        assert(s@.skip(0) =~= s@);
        assert(final(out)@ =~= old(out)@ + enc_str(s@));
    }
}

fn push_digits(n: u64, out: &mut Vec<u8>)
    ensures
        final(out)@ == old(out)@ + dec_digits(n as int),
    decreases n,
{
    if n < 10 {
        out.push(0x30 + n as u8);
        assert(final(out)@ =~= old(out)@ + dec_digits(n as int));
    } else {
        push_digits(n / 10, out);
        out.push(0x30 + (n % 10) as u8);
        assert(final(out)@ =~= old(out)@ + dec_digits(n as int));
    }
}

fn push_int(n: i64, out: &mut Vec<u8>)
    ensures
        final(out)@ == old(out)@ + enc_int(n as int),
{
    if n < 0 {
        out.push(0x2d);
        let mag: u64 = (-(n as i128)) as u64;
        push_digits(mag, out);
        assert(final(out)@ =~= old(out)@ + enc_int(n as int));
    } else {
        push_digits(n as u64, out);
    }
}

fn encode_into(v: &JsonValue, out: &mut Vec<u8>)
    ensures
        final(out)@ == old(out)@ + enc(v@),
    decreases v, 0int,
{
    match v {
        JsonValue::Null => {
            out.push(0x6e);
            out.push(0x75);
            out.push(0x6c);
            out.push(0x6c);
            assert(final(out)@ =~= old(out)@ + enc(v@));
        },
        JsonValue::Bool(b) => {
            if *b {
                out.push(0x74);
                out.push(0x72);
                out.push(0x75);
                out.push(0x65);
            } else {
                out.push(0x66);
                out.push(0x61);
                out.push(0x6c);
                out.push(0x73);
                out.push(0x65);
            }
            assert(final(out)@ =~= old(out)@ + enc(v@));
        },
        JsonValue::Int(n) => {
            push_int(*n, out);
        },
        JsonValue::Num(lex) => {
            let mut c = lex.clone();
            out.append(&mut c);
            assert(final(out)@ =~= old(out)@ + enc(v@));
        },
        JsonValue::Str(s) => {
            push_str(s, out);
        },
        JsonValue::Arr(a) => {
            out.push(0x5b);
            if a.len() > 0 {
                encode_elems(a, 0, out);
            }
            out.push(0x5d);
            proof {
                lemma_jview_seq_len(a@);
                assert(jview_seq(a@).skip(0) =~= jview_seq(a@));
                assert(final(out)@ =~= old(out)@ + enc(v@));
            }
        },
        JsonValue::Obj(m) => {
            out.push(0x7b);
            if m.len() > 0 {
                encode_members(m, 0, out);
            }
            out.push(0x7d);
            proof {
                lemma_jview_members_len(m@);
                assert(jview_members(m@).skip(0) =~= jview_members(m@));
                assert(final(out)@ =~= old(out)@ + enc(v@));
            }
        },
    }
}

pub proof fn lemma_jview_seq_len(s: Seq<JsonValue>)
    ensures
        jview_seq(s).len() == s.len(),
        forall|i: int| 0 <= i < s.len() ==> jview_seq(s)[i] == #[trigger] s[i]@,
    decreases s,
{
    if s.len() > 0 {
        lemma_jview_seq_len(s.drop_last());
        let t = jview_seq(s.drop_last());
        assert(jview_seq(s) == t.push(s.last()@));
        assert forall|i: int| 0 <= i < s.len() implies jview_seq(s)[i] == #[trigger] s[i]@ by {
            if i < s.len() - 1 {
                assert(s.drop_last()[i] == s[i]);
                assert(t.push(s.last()@)[i] == t[i]);
            } else {
                assert(t.push(s.last()@)[i] == s.last()@);
            }
        }
    }
}

pub proof fn lemma_jview_members_len(s: Seq<(Vec<u8>, JsonValue)>)
    ensures
        jview_members(s).len() == s.len(),
        forall|i: int|
            0 <= i < s.len() ==> jview_members(s)[i] == (#[trigger] s[i].0@, s[i].1@),
    decreases s,
{
    if s.len() > 0 {
        lemma_jview_members_len(s.drop_last());
        let t = jview_members(s.drop_last());
        assert(jview_members(s) == t.push((s.last().0@, s.last().1@)));
        assert forall|i: int|
            0 <= i < s.len() implies jview_members(s)[i] == (#[trigger] s[i].0@, s[i].1@) by {
            if i < s.len() - 1 {
                assert(s.drop_last()[i] == s[i]);
                assert(t.push((s.last().0@, s.last().1@))[i] == t[i]);
            } else {
                assert(t.push((s.last().0@, s.last().1@))[i] == (s.last().0@, s.last().1@));
            }
        }
    }
}

fn encode_elems(a: &Vec<JsonValue>, i: usize, out: &mut Vec<u8>)
    requires
        i < a@.len(),
    ensures
        final(out)@ == old(out)@ + enc_elems(jview_seq(a@).skip(i as int)),
    decreases a@, a@.len() - i,
{
    proof {
        lemma_jview_seq_len(a@);
    }
    let n: usize = a.len();
    encode_into(&a[i], out);
    if i + 1 < n {
        out.push(0x2c);
        encode_elems(a, i + 1, out);
        proof {
            assert(jview_seq(a@).skip(i as int).drop_first() =~= jview_seq(a@).skip(i + 1));
            assert(final(out)@ =~= old(out)@ + enc_elems(jview_seq(a@).skip(i as int)));
        }
    } else {
        proof {
            assert(jview_seq(a@).skip(i as int).len() == 1);
            assert(jview_seq(a@).skip(i as int)[0] == a@[i as int]@);
            assert(final(out)@ =~= old(out)@ + enc_elems(jview_seq(a@).skip(i as int)));
        }
    }
}

fn encode_members(m: &Vec<(Vec<u8>, JsonValue)>, i: usize, out: &mut Vec<u8>)
    requires
        i < m@.len(),
    ensures
        final(out)@ == old(out)@ + enc_members(jview_members(m@).skip(i as int)),
    decreases m@, m@.len() - i,
{
    proof {
        lemma_jview_members_len(m@);
    }
    let n: usize = m.len();
    push_str(&m[i].0, out);
    out.push(0x3a);
    encode_into(&m[i].1, out);
    if i + 1 < n {
        out.push(0x2c);
        encode_members(m, i + 1, out);
        proof {
            assert(jview_members(m@).skip(i as int).drop_first() =~= jview_members(m@).skip(
                i + 1,
            ));
            assert(final(out)@ =~= old(out)@ + enc_members(jview_members(m@).skip(i as int)));
        }
    } else {
        proof {
            assert(jview_members(m@).skip(i as int).len() == 1);
            assert(jview_members(m@).skip(i as int)[0] == (m@[i as int].0@, m@[i as int].1@));
            assert(final(out)@ =~= old(out)@ + enc_members(jview_members(m@).skip(i as int)));
        }
    }
}

// ---------------------------------------------------------------------------
// Round trip: parsing a canonical encoding yields the encoded value
// ---------------------------------------------------------------------------

/// Bytes that can open a canonically encoded value.
pub open spec fn value_start(b: u8) -> bool {
    b == 0x6e || b == 0x74 || b == 0x66 || b == 0x22 || b == 0x2d || is_digit(b) || b == 0x5b
        || b == 0x7b
}

proof fn lemma_region_split(s: Seq<u8>, i: int, a: Seq<u8>, b: Seq<u8>)
    requires
        0 <= i,
        i + a.len() + b.len() <= s.len(),
        s.subrange(i, i + a.len() + b.len()) == a + b,
    ensures
        s.subrange(i, i + a.len() as int) == a,
        s.subrange(i + a.len() as int, i + a.len() + b.len()) == b,
{
    assert forall|x: int| 0 <= x < a.len() implies s.subrange(i, i + a.len() as int)[x] == a[x] by {
        assert(s.subrange(i, i + a.len() as int)[x] == s[i + x]);
        assert(s.subrange(i, i + a.len() + b.len())[x] == s[i + x]);
        assert((a + b)[x] == a[x]);
    }
    assert(s.subrange(i, i + a.len() as int) =~= a);
    assert forall|x: int|
        0 <= x < b.len() implies s.subrange(i + a.len() as int, i + a.len() + b.len())[x]
        == b[x] by {
        assert(s.subrange(i + a.len() as int, i + a.len() + b.len())[x] == s[i + a.len() + x]);
        assert(s.subrange(i, i + a.len() + b.len())[a.len() + x] == s[i + a.len() + x]);
        assert((a + b)[a.len() + x] == b[x]);
    }
    assert(s.subrange(i + a.len() as int, i + a.len() + b.len()) =~= b);
}

proof fn lemma_region_byte(s: Seq<u8>, i: int, r: Seq<u8>, x: int)
    requires
        0 <= i,
        i + r.len() <= s.len(),
        s.subrange(i, i + r.len() as int) == r,
        0 <= x < r.len(),
    ensures
        s[i + x] == r[x],
        s[i + x] == s.subrange(i, i + r.len() as int)[x],
{
    assert(s.subrange(i, i + r.len() as int)[x] == s[i + x]);
}

proof fn lemma_dec_digits(n: int)
    requires
        n >= 0,
    ensures
        dec_digits(n).len() >= 1,
        forall|x: int| 0 <= x < dec_digits(n).len() ==> is_digit(#[trigger] dec_digits(n)[x]),
    decreases n,
{
    if n >= 10 {
        lemma_dec_digits(n / 10);
    }
}

pub open spec fn pow10(k: nat) -> int
    decreases k,
{
    if k == 0 {
        1
    } else {
        10 * pow10((k - 1) as nat)
    }
}

proof fn lemma_parse_uint_digits(s: Seq<u8>, i: int, n: int, acc: int)
    requires
        n >= 0,
        acc >= 0,
        0 <= i,
        i + dec_digits(n).len() <= s.len(),
        s.subrange(i, i + dec_digits(n).len() as int) == dec_digits(n),
    ensures
        parse_uint(s, i, acc) == parse_uint(
            s,
            i + dec_digits(n).len() as int,
            acc * pow10(dec_digits(n).len() as nat) + n,
        ),
    decreases n,
{
    let k = dec_digits(n).len() as int;
    if n < 10 {
        assert(s.subrange(i, i + 1)[0] == s[i]);
        assert(s[i] == (0x30 + n) as u8);
        assert(pow10(0) == 1);
        assert(pow10(1) == 10);
        assert(acc * pow10(1) + n == acc * 10 + n) by (nonlinear_arith)
            requires
                pow10(1) == 10,
        ;
    } else {
        let hd = dec_digits(n / 10);
        let k1 = hd.len() as int;
        assert(dec_digits(n) == hd + seq![(0x30 + n % 10) as u8]);
        assert(k == k1 + 1);
        lemma_region_split(s, i, hd, seq![(0x30 + n % 10) as u8]);
        lemma_parse_uint_digits(s, i, n / 10, acc);
        let a1 = acc * pow10(k1 as nat) + n / 10;
        lemma_region_byte(s, i + k1, seq![(0x30 + n % 10) as u8], 0);
        assert(s[i + k1] == (0x30 + n % 10) as u8);
        assert(is_digit(s[i + k1]));
        lemma_dec_digits(n / 10);
        lemma_pow10_pos(k1 as nat);
        assert(n / 10 >= 0);
        assert(a1 >= 0) by (nonlinear_arith)
            requires
                acc >= 0,
                n / 10 >= 0,
                pow10(k1 as nat) >= 1,
                a1 == acc * pow10(k1 as nat) + n / 10,
        ;
        assert(parse_uint(s, i + k1, a1) == parse_uint(s, i + k, a1 * 10 + (s[i + k1] - 0x30)));
        assert(pow10(k as nat) == 10 * pow10(k1 as nat));
        assert(a1 * 10 + n % 10 == acc * pow10(k as nat) + n) by (nonlinear_arith)
            requires
                a1 == acc * pow10(k1 as nat) + n / 10,
                pow10(k as nat) == 10 * pow10(k1 as nat),
                n == 10 * (n / 10) + n % 10,
        ;
    }
}

proof fn lemma_pow10_pos(k: nat)
    ensures
        pow10(k) >= 1,
    decreases k,
{
    if k > 0 {
        lemma_pow10_pos((k - 1) as nat);
    }
}

proof fn lemma_hex_rt(n: int)
    requires
        0 <= n < 16,
    ensures
        is_hex(hex_digit(n)),
        hexval(hex_digit(n)) == n,
{
}

/// A position where no number lexeme can continue: past the end, or at a
/// byte that is neither a digit nor a fraction or exponent mark.
pub open spec fn num_boundary(s: Seq<u8>, j: int) -> bool {
    j == s.len() || !(is_digit(s[j]) || s[j] == 0x2e || s[j] == 0x65 || s[j] == 0x45)
}

proof fn lemma_digits_end_bounds(s: Seq<u8>, i: int)
    requires
        0 <= i <= s.len(),
    ensures
        i <= digits_end(s, i) <= s.len(),
    decreases s.len() - i,
{
    if i < s.len() && is_digit(s[i]) {
        lemma_digits_end_bounds(s, i + 1);
    }
}

proof fn lemma_digits_end_run(s: Seq<u8>, i: int, e: int)
    requires
        0 <= i <= e <= s.len(),
        forall|x: int| i <= x < e ==> is_digit(#[trigger] s[x]),
        e == s.len() || !is_digit(s[e]),
    ensures
        digits_end(s, i) == e,
    decreases e - i,
{
    if i < e {
        lemma_digits_end_run(s, i + 1, e);
    }
}

proof fn lemma_digits_end_loc(s: Seq<u8>, i: int, lex: Seq<u8>, x: int)
    requires
        0 <= i,
        i + lex.len() <= s.len(),
        s.subrange(i, i + lex.len() as int) == lex,
        i + lex.len() == s.len() || !is_digit(s[i + lex.len()]),
        0 <= x <= lex.len(),
    ensures
        digits_end(s, i + x) == i + digits_end(lex, x),
    decreases lex.len() - x,
{
    if x < lex.len() {
        lemma_region_byte(s, i, lex, x);
        if is_digit(lex[x]) {
            lemma_digits_end_loc(s, i, lex, x + 1);
        }
    }
}

proof fn lemma_parse_uint_loc(s: Seq<u8>, i: int, lex: Seq<u8>, x: int, acc: int)
    requires
        0 <= i,
        i + lex.len() <= s.len(),
        s.subrange(i, i + lex.len() as int) == lex,
        i + lex.len() == s.len() || !is_digit(s[i + lex.len()]),
        0 <= x <= lex.len(),
    ensures
        parse_uint(s, i + x, acc).0 == parse_uint(lex, x, acc).0,
        parse_uint(s, i + x, acc).1 == i + parse_uint(lex, x, acc).1,
    decreases lex.len() - x,
{
    if x < lex.len() {
        lemma_region_byte(s, i, lex, x);
        if is_digit(lex[x]) {
            lemma_parse_uint_loc(s, i, lex, x + 1, acc * 10 + (lex[x] - 0x30));
        }
    }
}

/// A number lexeme embedded in a larger text, bounded on the right, scans to
/// its own end, with the same digit runs and the same integer value.
proof fn lemma_scan_number_loc(s: Seq<u8>, i: int, lex: Seq<u8>)
    requires
        0 <= i,
        i + lex.len() <= s.len(),
        s.subrange(i, i + lex.len() as int) == lex,
        num_boundary(s, i + lex.len()),
        scan_number(lex, 0) == Some(lex.len() as int),
    ensures
        scan_number(s, i) == Some(i + lex.len()),
        ({
            let sl = if lex[0] == 0x2d { 1int } else { 0int };
            digits_end(s, i + sl) == i + digits_end(lex, sl) && parse_uint(s, i + sl, 0).0
                == parse_uint(lex, sl, 0).0
        }),
{
    let L = lex.len() as int;
    let sl = if 0 <= 0 < lex.len() && lex[0] == 0x2d {
        1int
    } else {
        0int
    };
    assert(0 <= sl < L && is_digit(lex[sl]));
    lemma_region_byte(s, i, lex, 0);
    if sl == 1 {
        lemma_region_byte(s, i, lex, 1);
    }
    lemma_digits_end_loc(s, i, lex, sl);
    lemma_parse_uint_loc(s, i, lex, sl, 0);
    let ai = digits_end(lex, sl);
    lemma_digits_end_bounds(lex, sl);
    if ai < L {
        lemma_region_byte(s, i, lex, ai);
    }
    if ai < L && lex[ai] == 0x2e {
        // a fraction follows: its first digit exists, else the lexeme scan fails
        assert(ai + 1 < L && is_digit(lex[ai + 1]));
        lemma_region_byte(s, i, lex, ai + 1);
        lemma_digits_end_loc(s, i, lex, ai + 1);
        lemma_digits_end_bounds(lex, ai + 1);
    }
    let af: int = if ai < L && lex[ai] == 0x2e {
        digits_end(lex, ai + 1)
    } else {
        ai
    };
    if af < L {
        lemma_region_byte(s, i, lex, af);
    }
    if af < L && (lex[af] == 0x65 || lex[af] == 0x45) {
        // an exponent follows: its digits exist, else the lexeme scan fails
        assert(af + 1 < L);
        lemma_region_byte(s, i, lex, af + 1);
        let es = if lex[af + 1] == 0x2b || lex[af + 1] == 0x2d {
            af + 2
        } else {
            af + 1
        };
        assert(es < L && is_digit(lex[es]));
        lemma_region_byte(s, i, lex, es);
        lemma_digits_end_loc(s, i, lex, es);
    }
}

/// The first byte of a canonical encoding opens a value; in particular it is
/// neither whitespace nor a structural delimiter.
proof fn lemma_enc_first(v: JVal)
    requires
        wf(v),
    ensures
        enc(v).len() >= 1,
        value_start(enc(v)[0]),
{
    match v {
        JVal::Int(n) => {
            if n >= 0 {
                lemma_dec_digits(n);
                assert(enc(v)[0] == dec_digits(n)[0]);
            } else {
                lemma_dec_digits(-n);
            }
        },
        JVal::Num(lex) => {
            let sl = if 0 <= 0 < lex.len() && lex[0] == 0x2d {
                1int
            } else {
                0int
            };
            assert(0 <= sl < lex.len() && is_digit(lex[sl]));
        },
        _ => {},
    }
}

proof fn lemma_rt_strbody(s: Seq<u8>, i: int, b: Seq<u8>)
    requires
        0 <= i,
        i + esc_body(b).len() + 1 <= s.len(),
        s.subrange(i, i + esc_body(b).len() as int) == esc_body(b),
        s[i + esc_body(b).len()] == 0x22,
    ensures
        parse_strbody(s, i) == Some((b, i + esc_body(b).len() + 1)),
    decreases b.len(),
{
    if b.len() == 0 {
        assert(parse_strbody(s, i) == Some((Seq::<u8>::empty(), i + 1)));
        assert(b =~= Seq::<u8>::empty());
    } else {
        let b0 = b[0];
        let rest = b.drop_first();
        let e = esc_byte(b0);
        assert(esc_body(b) == e + esc_body(rest));
        lemma_region_split(s, i, e, esc_body(rest));
        let k = e.len() as int;
        lemma_rt_strbody(s, i + k, rest);
        lemma_region_byte(s, i, e, 0);
        if k >= 2 {
            lemma_region_byte(s, i, e, 1);
        }
        if k == 6 {
            lemma_region_byte(s, i, e, 2);
            lemma_region_byte(s, i, e, 3);
            lemma_region_byte(s, i, e, 4);
            lemma_region_byte(s, i, e, 5);
        }
        if b0 == 0x22 {
            assert(s[i] == 0x5c && s[i + 1] == 0x22);
            assert(seq![b0] + rest =~= b);
        } else if b0 == 0x5c {
            assert(s[i] == 0x5c && s[i + 1] == 0x5c);
            assert(seq![b0] + rest =~= b);
        } else if b0 < 0x20 {
            assert(s[i] == 0x5c && s[i + 1] == 0x75 && s[i + 2] == 0x30 && s[i + 3] == 0x30);
            lemma_hex_rt(b0 as int / 16);
            lemma_hex_rt(b0 as int % 16);
            assert(s[i + 4] == hex_digit(b0 as int / 16) && s[i + 5] == hex_digit(b0 as int % 16));
            assert(b0 as int == 16 * (b0 as int / 16) + b0 as int % 16);
            assert(is_hex(s[i + 2]) && hexval(s[i + 2]) == 0);
            assert(is_hex(s[i + 3]) && hexval(s[i + 3]) == 0);
            assert(hexquad(s, i + 2) == b0 as int);
            assert(utf8_bytes(b0 as int) =~= seq![b0]);
            assert(seq![b0] + rest =~= b);
        } else {
            assert(s[i] == b0);
            assert(seq![b0] + rest =~= b);
        }
    }
}

#[verifier::rlimit(80)]
proof fn lemma_rt_value(s: Seq<u8>, i: int, v: JVal)
    requires
        wf(v),
        0 <= i,
        i + enc(v).len() <= s.len(),
        s.subrange(i, i + enc(v).len() as int) == enc(v),
        num_boundary(s, i + enc(v).len()),
    ensures
        parse_value(s, i) == Some((v, i + enc(v).len() as int)),
    decreases v, 0int,
{
    let n = enc(v).len() as int;
    lemma_enc_first(v);
    lemma_region_byte(s, i, enc(v), 0);
    if n >= 2 {
        lemma_region_byte(s, i, enc(v), 1);
    }
    match v {
        JVal::Null => {
            assert(s[i] == 0x6e);
            assert(enc(v).len() == 4);
            assert(s.subrange(i, i + 4) == null_bytes());
            assert(parse_value(s, i) == Some((JVal::Null, i + 4)));
        },
        JVal::Bool(t) => {
            if t {
                assert(s.subrange(i, i + 4) =~= true_bytes());
            } else {
                assert(s.subrange(i, i + 5) =~= false_bytes());
            }
            assert(parse_value(s, i) == Some((v, i + n)));
        },
        JVal::Int(m) => {
            if m >= 0 {
                lemma_dec_digits(m);
                assert forall|x: int| i <= x < i + n implies is_digit(#[trigger] s[x]) by {
                    lemma_region_byte(s, i, enc(v), x - i);
                }
                lemma_digits_end_run(s, i, i + n);
                assert(s[i] != 0x2d);
                assert(scan_number(s, i) == Some(i + n));
                lemma_parse_uint_digits(s, i, m, 0);
                assert(0 * pow10(dec_digits(m).len() as nat) + m == m) by (nonlinear_arith);
                assert(parse_uint(s, i, 0) == (m, i + n));
                assert(parse_number(s, i) == Some((JVal::Int(m), i + n)));
            } else {
                lemma_dec_digits(-m);
                assert(enc(v) == seq![0x2du8] + dec_digits(-m));
                lemma_region_split(s, i, seq![0x2du8], dec_digits(-m));
                assert(s[i] == 0x2d);
                assert forall|x: int| i + 1 <= x < i + n implies is_digit(#[trigger] s[x]) by {
                    lemma_region_byte(s, i + 1, dec_digits(-m), x - i - 1);
                }
                lemma_digits_end_run(s, i + 1, i + n);
                assert(is_digit(s[i + 1]));
                assert(scan_number(s, i) == Some(i + n));
                lemma_parse_uint_digits(s, i + 1, -m, 0);
                assert(0 * pow10(dec_digits(-m).len() as nat) + (-m) == -m) by (nonlinear_arith);
                assert(parse_uint(s, i + 1, 0) == (-m, i + n));
                assert(parse_number(s, i) == Some((JVal::Int(m), i + n)));
            }
            assert(parse_value(s, i) == Some((v, i + n)));
        },
        JVal::Num(lex) => {
            assert(enc(v) == lex);
            lemma_scan_number_loc(s, i, lex);
            assert(scan_number(s, i) == Some(i + n));
            assert(s.subrange(i, i + n) == lex);
            assert(parse_number(s, i) == Some((JVal::Num(lex), i + n)));
            assert(parse_value(s, i) == Some((v, i + n)));
        },
        JVal::Str(t) => {
            assert(enc(v) == (seq![0x22u8] + esc_body(t)) + seq![0x22u8]);
            lemma_region_split(s, i, seq![0x22u8] + esc_body(t), seq![0x22u8]);
            lemma_region_split(s, i, seq![0x22u8], esc_body(t));
            assert(s.subrange(i + 1 + esc_body(t).len(), i + n)[0] == 0x22);
            lemma_rt_strbody(s, i + 1, t);
            assert(parse_value(s, i) == Some((v, i + n)));
        },
        JVal::Arr(es) => {
            if es.len() == 0 {
                assert(s[i] == 0x5b && s[i + 1] == 0x5d);
                assert(ws_end(s, i + 1) == i + 1);
                assert(wsb(s, i + 1) == i + 1);
                assert(es =~= Seq::<JVal>::empty());
            } else {
                assert(enc(v) == (seq![0x5bu8] + enc_elems(es)) + seq![0x5du8]);
                lemma_region_split(s, i, seq![0x5bu8] + enc_elems(es), seq![0x5du8]);
                lemma_region_split(s, i, seq![0x5bu8], enc_elems(es));
                lemma_region_byte(s, i + 1 + enc_elems(es).len(), seq![0x5du8], 0);
                lemma_enc_first(es[0]);
                assert(enc_elems(es)[0] == enc(es[0])[0]);
                lemma_region_byte(s, i + 1, enc_elems(es), 0);
                assert(value_start(s[i + 1]));
                assert(ws_end(s, i + 1) == i + 1);
                assert(wsb(s, i + 1) == i + 1);
                lemma_rt_elems(s, i + 1, es);
            }
            assert(parse_value(s, i) == Some((v, i + n)));
        },
        JVal::Obj(ms) => {
            if ms.len() == 0 {
                assert(s[i] == 0x7b && s[i + 1] == 0x7d);
                assert(ws_end(s, i + 1) == i + 1);
                assert(wsb(s, i + 1) == i + 1);
                assert(ms =~= Seq::<(Seq<u8>, JVal)>::empty());
            } else {
                assert(enc(v) == (seq![0x7bu8] + enc_members(ms)) + seq![0x7du8]);
                lemma_region_split(s, i, seq![0x7bu8] + enc_members(ms), seq![0x7du8]);
                lemma_region_split(s, i, seq![0x7bu8], enc_members(ms));
                lemma_region_byte(s, i + 1 + enc_members(ms).len(), seq![0x7du8], 0);
                assert(enc_members(ms)[0] == 0x22);
                lemma_region_byte(s, i + 1, enc_members(ms), 0);
                assert(ws_end(s, i + 1) == i + 1);
                assert(wsb(s, i + 1) == i + 1);
                lemma_rt_members(s, i + 1, ms);
            }
            assert(parse_value(s, i) == Some((v, i + n)));
        },
    }
}

proof fn lemma_rt_elems(s: Seq<u8>, i: int, es: Seq<JVal>)
    requires
        es.len() >= 1,
        forall|x: int| 0 <= x < es.len() ==> wf(#[trigger] es[x]),
        0 <= i,
        i + enc_elems(es).len() < s.len(),
        s.subrange(i, i + enc_elems(es).len() as int) == enc_elems(es),
        s[i + enc_elems(es).len()] == 0x5d,
    ensures
        parse_elems(s, i) == Some((es, i + enc_elems(es).len() + 1)),
    decreases es, 0int,
{
    let n = enc_elems(es).len() as int;
    let e0 = enc(es[0]).len() as int;
    lemma_enc_first(es[0]);
    if es.len() == 1 {
        assert(enc_elems(es) == enc(es[0]));
        lemma_rt_value(s, i, es[0]);
        let k = i + e0;
        assert(s[k] == 0x5d);
        assert(ws_end(s, k) == k);
        assert(wsb(s, k) == k);
        assert(seq![es[0]] =~= es);
    } else {
        let rest = es.drop_first();
        assert(enc_elems(es) == (enc(es[0]) + seq![0x2cu8]) + enc_elems(rest));
        lemma_region_split(s, i, enc(es[0]) + seq![0x2cu8], enc_elems(rest));
        lemma_region_split(s, i, enc(es[0]), seq![0x2cu8]);
        let k = i + e0;
        lemma_region_byte(s, k, seq![0x2cu8], 0);
        assert(s[k] == 0x2c);
        lemma_rt_value(s, i, es[0]);
        assert(ws_end(s, k) == k);
        assert(wsb(s, k) == k);
        lemma_enc_first(rest[0]);
        assert(enc_elems(rest)[0] == enc(rest[0])[0]);
        lemma_region_byte(s, k + 1, enc_elems(rest), 0);
        assert(value_start(s[k + 1]));
        assert(ws_end(s, k + 1) == k + 1);
        assert(wsb(s, k + 1) == k + 1);
        lemma_rt_elems(s, k + 1, rest);
        assert(seq![es[0]] + rest =~= es);
    }
}

proof fn lemma_rt_members(s: Seq<u8>, i: int, ms: Seq<(Seq<u8>, JVal)>)
    requires
        ms.len() >= 1,
        forall|x: int| 0 <= x < ms.len() ==> wf(#[trigger] ms[x].1),
        0 <= i,
        i + enc_members(ms).len() < s.len(),
        s.subrange(i, i + enc_members(ms).len() as int) == enc_members(ms),
        s[i + enc_members(ms).len()] == 0x7d,
    ensures
        parse_members(s, i) == Some((ms, i + enc_members(ms).len() + 1)),
    decreases ms, 0int,
{
    let n = enc_members(ms).len() as int;
    let key = ms[0].0;
    let v0 = ms[0].1;
    let sk = enc_str(key).len() as int;
    let e0 = enc(v0).len() as int;
    lemma_enc_first(v0);
    let head = enc_str(key) + seq![0x3au8] + enc(v0);
    if ms.len() == 1 {
        assert(enc_members(ms) == head);
    } else {
        assert(enc_members(ms) =~= head + (seq![0x2cu8] + enc_members(ms.drop_first())));
        lemma_region_split(s, i, head, seq![0x2cu8] + enc_members(ms.drop_first()));
        lemma_region_split(s, i + sk + 1 + e0, seq![0x2cu8], enc_members(ms.drop_first()));
    }
    // the head region: key string, colon, value
    assert(s.subrange(i, i + sk + 1 + e0) == head);
    assert(head == (enc_str(key) + seq![0x3au8]) + enc(v0));
    lemma_region_split(s, i, enc_str(key) + seq![0x3au8], enc(v0));
    lemma_region_split(s, i, enc_str(key), seq![0x3au8]);
    assert(s.subrange(i, i + sk) == enc_str(key));
    assert(enc_str(key) == (seq![0x22u8] + esc_body(key)) + seq![0x22u8]);
    lemma_region_split(s, i, seq![0x22u8] + esc_body(key), seq![0x22u8]);
    lemma_region_split(s, i, seq![0x22u8], esc_body(key));
    lemma_region_byte(s, i, seq![0x22u8], 0);
    assert(s[i] == 0x22);
    lemma_region_byte(s, i + 1 + esc_body(key).len(), seq![0x22u8], 0);
    lemma_rt_strbody(s, i + 1, key);
    let k = i + sk;
    lemma_region_byte(s, k, seq![0x3au8], 0);
    assert(s[k] == 0x3a);
    assert(ws_end(s, k) == k);
    assert(wsb(s, k) == k);
    assert(s.subrange(k + 1, k + 1 + e0) == enc(v0));
    lemma_region_byte(s, k + 1, enc(v0), 0);
    assert(value_start(s[k + 1]));
    assert(ws_end(s, k + 1) == k + 1);
    assert(wsb(s, k + 1) == k + 1);
    let k3 = k + 1 + e0;
    if ms.len() == 1 {
        assert(s[k3] == 0x7d);
        lemma_rt_value(s, k + 1, v0);
        assert(ws_end(s, k3) == k3);
        assert(wsb(s, k3) == k3);
        assert(seq![(key, v0)] =~= ms);
    } else {
        let rest = ms.drop_first();
        lemma_region_byte(s, k3, seq![0x2cu8], 0);
        assert(s[k3] == 0x2c);
        lemma_rt_value(s, k + 1, v0);
        assert(ws_end(s, k3) == k3);
        assert(wsb(s, k3) == k3);
        assert(enc_members(rest)[0] == 0x22);
        lemma_region_byte(s, k3 + 1, enc_members(rest), 0);
        assert(s[k3 + 1] == 0x22);
        assert(ws_end(s, k3 + 1) == k3 + 1);
        assert(wsb(s, k3 + 1) == k3 + 1);
        lemma_rt_members(s, k3 + 1, rest);
        assert(seq![(key, v0)] + rest =~= ms);
    }
}

/// Decoding an encoding returns the encoded value: the codec round-trips on
/// every well-formed value — integers within `i64` and kept numeric lexemes
/// lawful, which holds of everything this parser itself produces and of
/// every request the catalog builds.
pub proof fn lemma_round_trip(v: JVal)
    requires
        wf(v),
    ensures
        parse_json(enc(v)) == Some(v),
{
    let s = enc(v);
    lemma_enc_first(v);
    assert(ws_end(s, 0) == 0);
    assert(wsb(s, 0) == 0);
    assert(s.subrange(0, s.len() as int) =~= s);
    lemma_rt_value(s, 0, v);
    assert(ws_end(s, s.len() as int) == s.len());
    assert(wsb(s, s.len() as int) == s.len());
}

// ---------------------------------------------------------------------------
// Parser (executable)
// ---------------------------------------------------------------------------

proof fn lemma_ws_end_bounds(s: Seq<u8>, i: int)
    requires
        0 <= i <= s.len(),
    ensures
        i <= ws_end(s, i) <= s.len(),
    decreases s.len() - i,
{
    if i < s.len() && is_ws(s[i]) {
        lemma_ws_end_bounds(s, i + 1);
    }
}

fn skip_ws(s: &Vec<u8>, i: usize) -> (r: usize)
    requires
        i <= s@.len(),
    ensures
        r as int == wsb(s@, i as int),
        i <= r <= s@.len(),
    decreases s@.len() - i,
{
    proof {
        lemma_ws_end_bounds(s@, i as int);
    }
    if i < s.len() {
        let b = s[i];
        if b == 0x20 || b == 0x09 || b == 0x0a || b == 0x0d {
            let r = skip_ws(s, i + 1);
            proof {
                lemma_ws_end_bounds(s@, i + 1);
            }
            r
        } else {
            i
        }
    } else {
        i
    }
}

fn match4(s: &Vec<u8>, i: usize, b0: u8, b1: u8, b2: u8, b3: u8) -> (r: bool)
    requires
        i <= s@.len(),
    ensures
        r == (i + 4 <= s@.len() && s@.subrange(i as int, i + 4) == seq![b0, b1, b2, b3]),
{
    if s.len() - i >= 4 {
        proof {
            assert(s@.subrange(i as int, i + 4)[0] == s@[i as int]);
            assert(s@.subrange(i as int, i + 4)[1] == s@[i + 1]);
            assert(s@.subrange(i as int, i + 4)[2] == s@[i + 2]);
            assert(s@.subrange(i as int, i + 4)[3] == s@[i + 3]);
        }
        let ok = s[i] == b0 && s[i + 1] == b1 && s[i + 2] == b2 && s[i + 3] == b3;
        proof {
            if ok {
                assert(s@.subrange(i as int, i + 4) =~= seq![b0, b1, b2, b3]);
            }
        }
        ok
    } else {
        false
    }
}

fn match5(s: &Vec<u8>, i: usize, b0: u8, b1: u8, b2: u8, b3: u8, b4: u8) -> (r: bool)
    requires
        i <= s@.len(),
    ensures
        r == (i + 5 <= s@.len() && s@.subrange(i as int, i + 5) == seq![b0, b1, b2, b3, b4]),
{
    if s.len() - i >= 5 {
        proof {
            assert(s@.subrange(i as int, i + 5)[0] == s@[i as int]);
            assert(s@.subrange(i as int, i + 5)[1] == s@[i + 1]);
            assert(s@.subrange(i as int, i + 5)[2] == s@[i + 2]);
            assert(s@.subrange(i as int, i + 5)[3] == s@[i + 3]);
            assert(s@.subrange(i as int, i + 5)[4] == s@[i + 4]);
        }
        let ok = s[i] == b0 && s[i + 1] == b1 && s[i + 2] == b2 && s[i + 3] == b3 && s[i + 4]
            == b4;
        proof {
            if ok {
                assert(s@.subrange(i as int, i + 5) =~= seq![b0, b1, b2, b3, b4]);
            }
        }
        ok
    } else {
        false
    }
}

fn hexval_x(b: u8) -> (r: u8)
    requires
        is_hex(b),
    ensures
        r as int == hexval(b),
        r < 16,
{
    if 0x30 <= b && b <= 0x39 {
        b - 0x30
    } else if 0x61 <= b && b <= 0x66 {
        b - 0x57
    } else {
        b - 0x37
    }
}

fn esc_char_x(c: u8) -> (r: Option<u8>)
    ensures
        r == esc_char(c),
{
    if c == 0x22 {
        Some(0x22)
    } else if c == 0x5c {
        Some(0x5c)
    } else if c == 0x2f {
        Some(0x2f)
    } else if c == 0x6e {
        Some(0x0a)
    } else if c == 0x74 {
        Some(0x09)
    } else if c == 0x72 {
        Some(0x0d)
    } else if c == 0x62 {
        Some(0x08)
    } else if c == 0x66 {
        Some(0x0c)
    } else {
        None
    }
}

fn scan_strbody(s: &Vec<u8>, i: usize) -> (r: Option<(Vec<u8>, usize)>)
    requires
        i <= s@.len(),
    ensures
        match r {
            Some((t, j)) => parse_strbody(s@, i as int) == Some((t@, j as int)) && i < j
                <= s@.len(),
            None => parse_strbody(s@, i as int) is None,
        },
    decreases s@.len() - i,
{
    if i >= s.len() {
        return None;
    }
    let b = s[i];
    if b == 0x22 {
        let t: Vec<u8> = Vec::new();
        proof {
            assert(t@ =~= Seq::<u8>::empty());
        }
        Some((t, i + 1))
    } else if b == 0x5c {
        if s.len() - i >= 2 {
            let c = s[i + 1];
            if c == 0x75 {
                if s.len() - i >= 6 && is_hex_x(s[i + 2]) && is_hex_x(s[i + 3]) && is_hex_x(
                    s[i + 4],
                ) && is_hex_x(s[i + 5]) {
                    let cp: u32 = hexquad_x(s, i + 2);
                    if 0xd800 <= cp && cp <= 0xdbff {
                        if s.len() - i >= 12 && s[i + 6] == 0x5c && s[i + 7] == 0x75 && is_hex_x(
                            s[i + 8],
                        ) && is_hex_x(s[i + 9]) && is_hex_x(s[i + 10]) && is_hex_x(s[i + 11]) {
                            let lo: u32 = hexquad_x(s, i + 8);
                            if 0xdc00 <= lo && lo <= 0xdfff {
                                let full: u32 = 0x10000 + (cp - 0xd800) * 0x400 + (lo - 0xdc00);
                                match scan_strbody(s, i + 12) {
                                    Some((mut t, j)) => {
                                        let ghost t0 = t@;
                                        let mut head = utf8_vec(full);
                                        head.append(&mut t);
                                        proof {
                                            assert(head@ =~= utf8_bytes(full as int) + t0);
                                        }
                                        Some((head, j))
                                    },
                                    None => None,
                                }
                            } else {
                                None
                            }
                        } else {
                            None
                        }
                    } else if 0xdc00 <= cp && cp <= 0xdfff {
                        None
                    } else {
                        match scan_strbody(s, i + 6) {
                            Some((mut t, j)) => {
                                let ghost t0 = t@;
                                let mut head = utf8_vec(cp);
                                head.append(&mut t);
                                proof {
                                    assert(head@ =~= utf8_bytes(cp as int) + t0);
                                }
                                Some((head, j))
                            },
                            None => None,
                        }
                    }
                } else {
                    None
                }
            } else {
                match esc_char_x(c) {
                    Some(d) => match scan_strbody(s, i + 2) {
                        Some((mut t, j)) => {
                            let ghost t0 = t@;
                            t.insert(0, d);
                            proof {
                                assert(t@ =~= seq![d] + t0);
                            }
                            Some((t, j))
                        },
                        None => None,
                    },
                    None => None,
                }
            }
        } else {
            None
        }
    } else {
        match scan_strbody(s, i + 1) {
            Some((mut t, j)) => {
                let ghost t0 = t@;
                t.insert(0, b);
                proof {
                    assert(t@ =~= seq![b] + t0);
                }
                Some((t, j))
            },
            None => None,
        }
    }
}

fn is_hex_x(b: u8) -> (r: bool)
    ensures
        r == is_hex(b),
{
    (0x30 <= b && b <= 0x39) || (0x61 <= b && b <= 0x66) || (0x41 <= b && b <= 0x46)
}

proof fn lemma_parse_uint_lb(s: Seq<u8>, i: int, acc: int)
    requires
        acc >= 0,
    ensures
        parse_uint(s, i, acc).0 >= acc,
    decreases s.len() - i,
{
    if 0 <= i < s.len() && is_digit(s[i]) {
        lemma_parse_uint_lb(s, i + 1, acc * 10 + (s[i] - 0x30));
    }
}

fn scan_uint(s: &Vec<u8>, i: usize, acc: u64) -> (r: Option<(u64, usize)>)
    requires
        i <= s@.len(),
        acc <= 0x8000_0000_0000_0000,
    ensures
        match r {
            Some((m, j)) => m <= 0x8000_0000_0000_0000 && parse_uint(s@, i as int, acc as int)
                == (m as int, j as int) && i <= j <= s@.len(),
            None => parse_uint(s@, i as int, acc as int).0 > int_bound(),
        },
    decreases s@.len() - i,
{
    if i < s.len() {
        let b = s[i];
        if 0x30 <= b && b <= 0x39 {
            let d = (b - 0x30) as u64;
            let q = (0x8000_0000_0000_0000u64 - d) / 10;
            if acc <= q {
                proof {
                    assert(acc as int * 10 + d as int <= int_bound());
                }
                scan_uint(s, i + 1, acc * 10 + d)
            } else {
                proof {
                    assert(acc as int * 10 + d as int > int_bound());
                    lemma_parse_uint_lb(s@, i + 1, acc as int * 10 + d as int);
                }
                None
            }
        } else {
            Some((acc, i))
        }
    } else {
        Some((acc, i))
    }
}

fn is_digit_x(b: u8) -> (r: bool)
    ensures
        r == is_digit(b),
{
    0x30 <= b && b <= 0x39
}

fn hexquad_x(s: &Vec<u8>, i: usize) -> (r: u32)
    requires
        i + 4 <= s@.len(),
        is_hex(s@[i as int]),
        is_hex(s@[i + 1]),
        is_hex(s@[i + 2]),
        is_hex(s@[i + 3]),
    ensures
        r as int == hexquad(s@, i as int),
        r <= 0xffff,
{
    let n: usize = s.len();
    proof {
        assert(i + 4 <= n);
    }
    let a = hexval_x(s[i]) as u32;
    let b = hexval_x(s[i + 1]) as u32;
    let c = hexval_x(s[i + 2]) as u32;
    let d = hexval_x(s[i + 3]) as u32;
    4096 * a + 256 * b + 16 * c + d
}

fn utf8_vec(cp: u32) -> (r: Vec<u8>)
    requires
        cp < 0x110000,
    ensures
        r@ == utf8_bytes(cp as int),
{
    let mut r: Vec<u8> = Vec::new();
    if cp < 0x80 {
        r.push(cp as u8);
    } else if cp < 0x800 {
        r.push((0xc0 + cp / 64) as u8);
        r.push((0x80 + cp % 64) as u8);
    } else if cp < 0x10000 {
        r.push((0xe0 + cp / 4096) as u8);
        r.push((0x80 + (cp / 64) % 64) as u8);
        r.push((0x80 + cp % 64) as u8);
    } else {
        r.push((0xf0 + cp / 262144) as u8);
        r.push((0x80 + (cp / 4096) % 64) as u8);
        r.push((0x80 + (cp / 64) % 64) as u8);
        r.push((0x80 + cp % 64) as u8);
    }
    proof {
        assert(r@ =~= utf8_bytes(cp as int));
    }
    r
}

fn digits_end_x(s: &Vec<u8>, i: usize) -> (r: usize)
    requires
        i <= s@.len(),
    ensures
        r as int == digits_end(s@, i as int),
        i <= r <= s@.len(),
    decreases s@.len() - i,
{
    if i < s.len() {
        if is_digit_x(s[i]) {
            digits_end_x(s, i + 1)
        } else {
            i
        }
    } else {
        i
    }
}

fn scan_number_x(s: &Vec<u8>, i: usize) -> (r: Option<usize>)
    requires
        i <= s@.len(),
    ensures
        match r {
            Some(end) => scan_number(s@, i as int) == Some(end as int) && i < end <= s@.len(),
            None => scan_number(s@, i as int) is None,
        },
{
    let start: usize = if i < s.len() && s[i] == 0x2d {
        i + 1
    } else {
        i
    };
    if start >= s.len() {
        return None;
    }
    if !is_digit_x(s[start]) {
        return None;
    }
    let after_int = digits_end_x(s, start);
    proof {
        lemma_digits_end_bounds(s@, start + 1);
        assert(start < after_int);
    }
    let af: usize;
    if after_int < s.len() && s[after_int] == 0x2e {
        if after_int + 1 < s.len() && is_digit_x(s[after_int + 1]) {
            af = digits_end_x(s, after_int + 1);
        } else {
            return None;
        }
    } else {
        af = after_int;
    }
    if af < s.len() && (s[af] == 0x65 || s[af] == 0x45) {
        let es: usize = if af + 1 < s.len() && (s[af + 1] == 0x2b || s[af + 1] == 0x2d) {
            af + 2
        } else {
            af + 1
        };
        if es < s.len() && is_digit_x(s[es]) {
            let end = digits_end_x(s, es);
            proof {
                assert(scan_number(s@, i as int) == Some(end as int));
            }
            Some(end)
        } else {
            proof {
                assert(scan_number(s@, i as int) is None);
            }
            None
        }
    } else {
        proof {
            assert(scan_number(s@, i as int) == Some(af as int));
        }
        Some(af)
    }
}

fn copy_range(s: &Vec<u8>, i: usize, j: usize) -> (r: Vec<u8>)
    requires
        i <= j <= s@.len(),
    ensures
        r@ == s@.subrange(i as int, j as int),
{
    let mut r: Vec<u8> = Vec::new();
    let mut t: usize = i;
    proof {
        assert(r@ =~= s@.subrange(i as int, i as int));
    }
    while t < j
        invariant
            i <= t <= j <= s@.len(),
            r@ == s@.subrange(i as int, t as int),
        decreases j - t,
    {
        r.push(s[t]);
        proof {
            assert(r@ =~= s@.subrange(i as int, t + 1));
        }
        t = t + 1;
    }
    r
}

fn scan_num(s: &Vec<u8>, i: usize) -> (r: Option<(JsonValue, usize)>)
    requires
        i < s@.len(),
        s@[i as int] == 0x2d || is_digit(s@[i as int]),
    ensures
        match r {
            Some((v, j)) => parse_number(s@, i as int) == Some((v@, j as int)) && i < j
                <= s@.len(),
            None => parse_number(s@, i as int) is None,
        },
{
    match scan_number_x(s, i) {
        None => None,
        Some(end) => {
            let start: usize = if s[i] == 0x2d {
                i + 1
            } else {
                i
            };
            let after_int = digits_end_x(s, start);
            if after_int == end {
                match scan_uint(s, start, 0) {
                    Some((m, _j)) => {
                        if s[i] == 0x2d {
                            let v: i64 = if m == 0x8000_0000_0000_0000 {
                                i64::MIN
                            } else {
                                -(m as i64)
                            };
                            Some((JsonValue::Int(v), end))
                        } else {
                            if m < 0x8000_0000_0000_0000 {
                                Some((JsonValue::Int(m as i64), end))
                            } else {
                                Some((JsonValue::Num(copy_range(s, i, end)), end))
                            }
                        }
                    },
                    None => Some((JsonValue::Num(copy_range(s, i, end)), end)),
                }
            } else {
                Some((JsonValue::Num(copy_range(s, i, end)), end))
            }
        },
    }
}

fn scan_value(s: &Vec<u8>, i: usize) -> (r: Option<(JsonValue, usize)>)
    requires
        i <= s@.len(),
    ensures
        match r {
            Some((v, j)) => parse_value(s@, i as int) == Some((v@, j as int)) && i < j <= s@.len(),
            None => parse_value(s@, i as int) is None,
        },
    decreases s@.len() - i, 2int,
{
    if i >= s.len() {
        return None;
    }
    let b = s[i];
    if b == 0x6e {
        if match4(s, i, 0x6e, 0x75, 0x6c, 0x6c) {
            Some((JsonValue::Null, i + 4))
        } else {
            None
        }
    } else if b == 0x74 {
        if match4(s, i, 0x74, 0x72, 0x75, 0x65) {
            Some((JsonValue::Bool(true), i + 4))
        } else {
            None
        }
    } else if b == 0x66 {
        if match5(s, i, 0x66, 0x61, 0x6c, 0x73, 0x65) {
            Some((JsonValue::Bool(false), i + 5))
        } else {
            None
        }
    } else if b == 0x22 {
        match scan_strbody(s, i + 1) {
            Some((t, j)) => Some((JsonValue::Str(t), j)),
            None => None,
        }
    } else if b == 0x2d || (0x30 <= b && b <= 0x39) {
        scan_num(s, i)
    } else if b == 0x5b {
        let j = skip_ws(s, i + 1);
        if j < s.len() && s[j] == 0x5d {
            let es: Vec<JsonValue> = Vec::new();
            proof {
                assert(jview_seq(es@) =~= Seq::<JVal>::empty());
            }
            Some((JsonValue::Arr(es), j + 1))
        } else {
            match scan_elems(s, j) {
                Some((es, k)) => Some((JsonValue::Arr(es), k)),
                None => None,
            }
        }
    } else if b == 0x7b {
        let j = skip_ws(s, i + 1);
        if j < s.len() && s[j] == 0x7d {
            let ms: Vec<(Vec<u8>, JsonValue)> = Vec::new();
            proof {
                assert(jview_members(ms@) =~= Seq::<(Seq<u8>, JVal)>::empty());
            }
            Some((JsonValue::Obj(ms), j + 1))
        } else {
            match scan_members(s, j) {
                Some((ms, k)) => Some((JsonValue::Obj(ms), k)),
                None => None,
            }
        }
    } else {
        None
    }
}

fn scan_elems(s: &Vec<u8>, i: usize) -> (r: Option<(Vec<JsonValue>, usize)>)
    requires
        i <= s@.len(),
    ensures
        match r {
            Some((es, j)) => parse_elems(s@, i as int) == Some((jview_seq(es@), j as int)) && i
                < j <= s@.len(),
            None => parse_elems(s@, i as int) is None,
        },
    decreases s@.len() - i, 3int,
{
    match scan_value(s, i) {
        None => None,
        Some((v, k)) => {
            let k2 = skip_ws(s, k);
            if k2 < s.len() && s[k2] == 0x2c {
                let k3 = skip_ws(s, k2 + 1);
                match scan_elems(s, k3) {
                    None => None,
                    Some((mut es, j)) => {
                        let ghost es0 = es@;
                        es.insert(0, v);
                        proof {
                            lemma_jview_seq_len(es0);
                            lemma_jview_seq_len(es@);
                            assert forall|x: int| 0 <= x < es@.len() implies jview_seq(es@)[x]
                                == (seq![v@] + jview_seq(es0))[x] by {
                                assert(jview_seq(es@)[x] == es@[x]@);
                                if x == 0 {
                                    assert(es@[0] == v);
                                } else {
                                    assert(es@[x] == es0[x - 1]);
                                    assert(jview_seq(es0)[x - 1] == es0[x - 1]@);
                                }
                            }
                            assert(jview_seq(es@) =~= seq![v@] + jview_seq(es0));
                        }
                        Some((es, j))
                    },
                }
            } else if k2 < s.len() && s[k2] == 0x5d {
                let mut es: Vec<JsonValue> = Vec::new();
                es.push(v);
                proof {
                    lemma_jview_seq_len(es@);
                    assert(jview_seq(es@) =~= seq![v@]);
                }
                Some((es, k2 + 1))
            } else {
                None
            }
        },
    }
}

fn scan_members(s: &Vec<u8>, i: usize) -> (r: Option<(Vec<(Vec<u8>, JsonValue)>, usize)>)
    requires
        i <= s@.len(),
    ensures
        match r {
            Some((ms, j)) => parse_members(s@, i as int) == Some((jview_members(ms@), j as int))
                && i < j <= s@.len(),
            None => parse_members(s@, i as int) is None,
        },
    decreases s@.len() - i, 3int,
{
    if i >= s.len() {
        return None;
    }
    if s[i] != 0x22 {
        return None;
    }
    match scan_strbody(s, i + 1) {
        None => None,
        Some((key, k)) => {
            let k1 = skip_ws(s, k);
            if k1 < s.len() && s[k1] == 0x3a {
                let k2 = skip_ws(s, k1 + 1);
                match scan_value(s, k2) {
                    None => None,
                    Some((v, k3)) => {
                        let k4 = skip_ws(s, k3);
                        if k4 < s.len() && s[k4] == 0x2c {
                            let k5 = skip_ws(s, k4 + 1);
                            match scan_members(s, k5) {
                                None => None,
                                Some((mut ms, j)) => {
                                    let ghost ms0 = ms@;
                                    ms.insert(0, (key, v));
                                    proof {
                                        lemma_jview_members_len(ms0);
                                        lemma_jview_members_len(ms@);
                                        assert forall|x: int|
                                            0 <= x < ms@.len() implies jview_members(ms@)[x] == (
                                        seq![(key@, v@)] + jview_members(ms0))[x] by {
                                            assert(jview_members(ms@)[x] == (
                                            ms@[x].0@,
                                            ms@[x].1@,
                                            ));
                                            if x == 0 {
                                                assert(ms@[0] == (key, v));
                                            } else {
                                                assert(ms@[x] == ms0[x - 1]);
                                                assert(jview_members(ms0)[x - 1] == (
                                                ms0[x - 1].0@,
                                                ms0[x - 1].1@,
                                                ));
                                            }
                                        }
                                        assert(jview_members(ms@) =~= seq![(key@, v@)]
                                            + jview_members(ms0));
                                    }
                                    Some((ms, j))
                                },
                            }
                        } else if k4 < s.len() && s[k4] == 0x7d {
                            let mut ms: Vec<(Vec<u8>, JsonValue)> = Vec::new();
                            ms.push((key, v));
                            proof {
                                lemma_jview_members_len(ms@);
                                assert(jview_members(ms@) =~= seq![(key@, v@)]);
                            }
                            Some((ms, k4 + 1))
                        } else {
                            None
                        }
                    },
                }
            } else {
                None
            }
        },
    }
}

/// Parse a complete JSON document from bytes.
pub fn parse(s: &Vec<u8>) -> (r: Option<JsonValue>)
    ensures
        match r {
            Some(v) => parse_json(s@) == Some(v@),
            None => parse_json(s@) is None,
        },
{
    let i = skip_ws(s, 0);
    match scan_value(s, i) {
        Some((v, j)) => {
            let k = skip_ws(s, j);
            if k == s.len() {
                Some(v)
            } else {
                None
            }
        },
        None => None,
    }
}

/// The decimal digits of an integer, as bytes.
pub fn decimal_string(n: u64) -> (r: Vec<u8>)
    ensures
        r@ == dec_digits(n as int),
{
    let mut r: Vec<u8> = Vec::new();
    push_digits(n, &mut r);
    proof {
        assert(r@ =~= dec_digits(n as int));
    }
    r
}

/// Serialize a value to its canonical JSON byte form.
pub fn encode(v: &JsonValue) -> (out: Vec<u8>)
    ensures
        out@ == enc(v@),
{
    let mut out: Vec<u8> = Vec::new();
    encode_into(v, &mut out);
    proof {
        assert(out@ =~= enc(v@));
    }
    out
}

} // verus!
