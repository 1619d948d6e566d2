//! The lexer: source bytes to tokens.
//!
//! A token that carries text refers to its place in the source. Floating-point
//! literals are numbered in order; the host converts their texts.

use vstd::prelude::*;
use crate::bytes::{push_bytes, push_text, signed_decimal, signed_decimal_text, text, utf8};

verus! {

#[derive(Clone, Copy, PartialEq, Eq, Structural)]
pub enum Tok {
    Int(i64),
    /// A floating-point literal: its place, and its number among such literals.
    Float(usize, usize, usize),
    /// An identifier: its place.
    Ident(usize, usize),
    Plus,
    Minus,
    Star,
    Slash,
    /// The sign of integer division.
    IDiv,
    Percent,
    Amp,
    Pipe,
    /// The sign of exclusive or.
    Veebar,
    Shl,
    Shr,
    Ushr,
    Lt,
    Le,
    Gt,
    Ge,
    EqEq,
    EqEqEq,
    Assign,
    LParen,
    RParen,
    Dot,
    Comma,
    ColonColon,
    /// A newline or a semicolon.
    Sep,
    If,
    Struct,
    Mutable,
    Else,
    Elseif,
    End,
    While,
    Eof,
}

/// What stands at a place of the source.
#[verifier::ext_equal]
pub enum Scan {
    /// Blank space or a comment, up to the given place.
    Skip(int),
    /// A token, up to the given place.
    Token(Tok, int),
    /// No token, with the message.
    Bad(Seq<u8>),
}

/// The byte at `i`, or zero past the end.
pub open spec fn byte_at(b: Seq<u8>, i: int) -> u8 {
    if 0 <= i < b.len() {
        b[i]
    } else {
        0
    }
}

pub open spec fn is_digit(c: u8) -> bool {
    48 <= c <= 57
}

pub open spec fn is_alpha(c: u8) -> bool {
    (65 <= c <= 90) || (97 <= c <= 122) || c == 95
}

pub open spec fn is_word(c: u8) -> bool {
    is_alpha(c) || is_digit(c)
}

/// The first place from `i` on that does not hold a digit.
pub open spec fn digits_end(b: Seq<u8>, i: int) -> int
    decreases b.len() - i,
{
    if 0 <= i < b.len() && is_digit(b[i]) {
        digits_end(b, i + 1)
    } else {
        i
    }
}

/// The first place from `i` on that does not hold a letter, a digit or an underscore.
pub open spec fn word_end(b: Seq<u8>, i: int) -> int
    decreases b.len() - i,
{
    if 0 <= i < b.len() && is_word(b[i]) {
        word_end(b, i + 1)
    } else {
        i
    }
}

/// The first place from `i` on that holds a newline.
pub open spec fn line_end(b: Seq<u8>, i: int) -> int
    decreases b.len() - i,
{
    if 0 <= i < b.len() && b[i] != 10 {
        line_end(b, i + 1)
    } else {
        i
    }
}

/// The number that the digits from `s` up to `e` stand for.
pub open spec fn digits_value(b: Seq<u8>, s: int, e: int) -> nat
    decreases e - s,
{
    if e <= s || e > b.len() || s < 0 {
        0
    } else {
        digits_value(b, s, e - 1) * 10 + (b[e - 1] - 48) as nat
    }
}

/// The keyword or identifier from `s` up to `e`.
pub open spec fn word_token(b: Seq<u8>, s: int, e: int) -> Tok {
    let w = b.subrange(s, e);
    if w == utf8("if") {
        Tok::If
    } else if w == utf8("else") {
        Tok::Else
    } else if w == utf8("elseif") {
        Tok::Elseif
    } else if w == utf8("end") {
        Tok::End
    } else if w == utf8("while") {
        Tok::While
    } else if w == utf8("struct") {
        Tok::Struct
    } else if w == utf8("mutable") {
        Tok::Mutable
    } else {
        Tok::Ident(s as usize, e as usize)
    }
}

/// The number literal at `i`; `k` floating-point literals precede it.
pub open spec fn number_token(b: Seq<u8>, i: int, k: int) -> Scan {
    let e = digits_end(b, i);
    if byte_at(b, e) == 46 && is_digit(byte_at(b, e + 1)) {
        let e2 = digits_end(b, e + 1);
        Scan::Token(Tok::Float(i as usize, e2 as usize, k as usize), e2)
    } else if digits_value(b, i, e) > i64::MAX {
        Scan::Bad(utf8("invalid integer"))
    } else {
        Scan::Token(Tok::Int(digits_value(b, i, e) as i64), e)
    }
}

/// A character of the first two hundred and fifty-six in UTF-8.
pub open spec fn latin_text(c: u8) -> Seq<u8> {
    if c < 0x80 {
        seq![c]
    } else {
        seq![(0xc0 + c / 64) as u8, (0x80 + c % 64) as u8]
    }
}

/// The longest token, or the blank space, at `i`.
pub open spec fn scan(b: Seq<u8>, i: int, k: int) -> Scan {
    let c = byte_at(b, i);
    let c1 = byte_at(b, i + 1);
    let c2 = byte_at(b, i + 2);
    if c == 32 || c == 9 || c == 13 {
        Scan::Skip(i + 1)
    } else if c == 35 {
        Scan::Skip(line_end(b, i))
    } else if c == 10 || c == 59 {
        Scan::Token(Tok::Sep, i + 1)
    } else if c == 43 {
        Scan::Token(Tok::Plus, i + 1)
    } else if c == 45 {
        Scan::Token(Tok::Minus, i + 1)
    } else if c == 42 {
        Scan::Token(Tok::Star, i + 1)
    } else if c == 47 {
        Scan::Token(Tok::Slash, i + 1)
    } else if c == 37 {
        Scan::Token(Tok::Percent, i + 1)
    } else if c == 38 {
        Scan::Token(Tok::Amp, i + 1)
    } else if c == 124 {
        Scan::Token(Tok::Pipe, i + 1)
    } else if c == 0xc3 && c1 == 0xb7 {
        Scan::Token(Tok::IDiv, i + 2)
    } else if c == 0xe2 && c1 == 0x8a && c2 == 0xbb {
        Scan::Token(Tok::Veebar, i + 3)
    } else if c == 40 {
        Scan::Token(Tok::LParen, i + 1)
    } else if c == 46 {
        Scan::Token(Tok::Dot, i + 1)
    } else if c == 44 {
        Scan::Token(Tok::Comma, i + 1)
    } else if c == 58 && c1 == 58 {
        Scan::Token(Tok::ColonColon, i + 2)
    } else if c == 41 {
        Scan::Token(Tok::RParen, i + 1)
    } else if c == 60 && c1 == 60 {
        Scan::Token(Tok::Shl, i + 2)
    } else if c == 60 && c1 == 61 {
        Scan::Token(Tok::Le, i + 2)
    } else if c == 60 {
        Scan::Token(Tok::Lt, i + 1)
    } else if c == 62 && c1 == 62 && c2 == 62 {
        Scan::Token(Tok::Ushr, i + 3)
    } else if c == 62 && c1 == 62 {
        Scan::Token(Tok::Shr, i + 2)
    } else if c == 62 && c1 == 61 {
        Scan::Token(Tok::Ge, i + 2)
    } else if c == 62 {
        Scan::Token(Tok::Gt, i + 1)
    } else if c == 61 && c1 == 61 && c2 == 61 {
        Scan::Token(Tok::EqEqEq, i + 3)
    } else if c == 61 && c1 == 61 {
        Scan::Token(Tok::EqEq, i + 2)
    } else if c == 61 {
        Scan::Token(Tok::Assign, i + 1)
    } else if is_digit(c) {
        number_token(b, i, k)
    } else if is_alpha(c) {
        Scan::Token(word_token(b, i, word_end(b, i)), word_end(b, i))
    } else {
        Scan::Bad(utf8("unexpected character '") + latin_text(c) + utf8("'"))
    }
}

/// Whether a token is a floating-point literal.
pub open spec fn float_count(t: Tok) -> int {
    match t {
        Tok::Float(_, _, _) => 1,
        _ => 0,
    }
}

/// The tokens from `i` on, ending with the end of the source; `k` floating-point
/// literals precede them.
pub open spec fn tokens(b: Seq<u8>, i: int, k: int) -> Result<Seq<Tok>, Seq<u8>>
    decreases b.len() - i,
{
    if i < 0 || i >= b.len() {
        Ok(seq![Tok::Eof])
    } else {
        match scan(b, i, k) {
            Scan::Bad(m) => Err(m),
            Scan::Skip(j) => if i < j <= b.len() {
                tokens(b, j, k)
            } else {
                Ok(seq![Tok::Eof])
            },
            Scan::Token(t, j) => if i < j <= b.len() {
                match tokens(b, j, k + float_count(t)) {
                    Ok(ts) => Ok(seq![t] + ts),
                    Err(m) => Err(m),
                }
            } else {
                Ok(seq![Tok::Eof])
            },
        }
    }
}

/// Tokens before the rest.
pub open spec fn before(ts: Seq<Tok>, rest: Result<Seq<Tok>, Seq<u8>>) -> Result<
    Seq<Tok>,
    Seq<u8>,
> {
    match rest {
        Ok(r) => Ok(ts + r),
        Err(m) => Err(m),
    }
}

/// What stands at a place of the source.
enum Found {
    Skip(usize),
    Token(Tok, usize),
    Bad(Vec<u8>),
}

/// The picture of a find.
spec fn found_view(f: Found) -> Scan {
    match f {
        Found::Skip(j) => Scan::Skip(j as int),
        Found::Token(t, j) => Scan::Token(t, j as int),
        Found::Bad(m) => Scan::Bad(m@),
    }
}

/// The byte `i` places past `at`, or zero past the end.
fn peek_byte(b: &[u8], at: usize, i: usize) -> (r: u8)
    requires
        at <= b.len(),
    ensures
        r == byte_at(b@, at + i),
{
    if i < b.len() - at {
        b[at + i]
    } else {
        0
    }
}

fn digit(c: u8) -> (r: bool)
    ensures
        r == is_digit(c),
{
    48 <= c && c <= 57
}

fn alpha(c: u8) -> (r: bool)
    ensures
        r == is_alpha(c),
{
    (65 <= c && c <= 90) || (97 <= c && c <= 122) || c == 95
}

/// The first place from `i` on that does not hold a digit.
fn find_digits_end(b: &[u8], i: usize) -> (r: usize)
    requires
        i <= b.len(),
    ensures
        r == digits_end(b@, i as int),
        i <= r <= b.len(),
        forall|m: int| i <= m < r ==> is_digit(#[trigger] b@[m]),
{
    let mut j: usize = i;
    while j < b.len() && digit(b[j])
        invariant
            i <= j <= b.len(),
            digits_end(b@, i as int) == digits_end(b@, j as int),
            forall|m: int| i <= m < j ==> is_digit(#[trigger] b@[m]),
        decreases b.len() - j,
    {
        j = j + 1;
    }
    j
}

/// The first place from `i` on that does not hold a word character.
fn find_word_end(b: &[u8], i: usize) -> (r: usize)
    requires
        i <= b.len(),
    ensures
        r == word_end(b@, i as int),
        i <= r <= b.len(),
{
    let mut j: usize = i;
    while j < b.len() && (alpha(b[j]) || digit(b[j]))
        invariant
            i <= j <= b.len(),
            word_end(b@, i as int) == word_end(b@, j as int),
        decreases b.len() - j,
    {
        j = j + 1;
    }
    j
}

/// The first place from `i` on that holds a newline.
fn find_line_end(b: &[u8], i: usize) -> (r: usize)
    requires
        i <= b.len(),
    ensures
        r == line_end(b@, i as int),
        i <= r <= b.len(),
{
    let mut j: usize = i;
    while j < b.len() && b[j] != 10
        invariant
            i <= j <= b.len(),
            line_end(b@, i as int) == line_end(b@, j as int),
        decreases b.len() - j,
    {
        j = j + 1;
    }
    j
}

/// More digits do not make a smaller number.
proof fn lemma_digits_grow(b: Seq<u8>, s: int, j: int, e: int)
    requires
        0 <= s <= j <= e <= b.len(),
    ensures
        digits_value(b, s, j) <= digits_value(b, s, e),
    decreases e - j,
{
    if j < e {
        lemma_digits_grow(b, s, j, e - 1);
    }
}

/// The number that the digits from `s` up to `e` stand for, if it fits.
pub(crate) fn parse_digits(b: &[u8], s: usize, e: usize) -> (r: Option<i64>)
    requires
        s <= e <= b.len(),
        forall|m: int| s <= m < e ==> is_digit(#[trigger] b@[m]),
    ensures
        match r {
            Some(n) => n == digits_value(b@, s as int, e as int),
            None => digits_value(b@, s as int, e as int) > i64::MAX,
        },
{
    let mut n: i64 = 0;
    let mut j: usize = s;
    while j < e
        invariant
            s <= j <= e <= b.len(),
            n == digits_value(b@, s as int, j as int),
            0 <= n,
            forall|m: int| s <= m < e ==> is_digit(#[trigger] b@[m]),
        decreases e - j,
    {
        let d: i64 = (b[j] - 48) as i64;
        let wide: i128 = n as i128 * 10 + d as i128;
        assert(wide == digits_value(b@, s as int, j + 1));
        if wide > i64::MAX as i128 {
            proof {
                lemma_digits_grow(b@, s as int, j + 1, e as int);
            }
            return None;
        }
        n = wide as i64;
        j = j + 1;
    }
    Some(n)
}

/// Whether the bytes from `s` up to `e` are the given text.
pub(crate) fn bytes_are(b: &[u8], s: usize, e: usize, w: &str) -> (r: bool)
    requires
        s <= e <= b.len(),
    ensures
        r == (b@.subrange(s as int, e as int) == utf8(w)),
{
    let t: &[u8] = w.as_bytes();
    same_slice(b, s, e, t)
}

/// Whether the bytes from `s` up to `e` are those of `t`.
pub(crate) fn same_slice(b: &[u8], s: usize, e: usize, t: &[u8]) -> (r: bool)
    requires
        s <= e <= b.len(),
    ensures
        r == (b@.subrange(s as int, e as int) == t@),
{
    if t.len() != e - s {
        return false;
    }
    let mut i: usize = 0;
    while i < t.len()
        invariant
            i <= t.len(),
            t.len() == e - s,
            s <= e <= b.len(),
            forall|m: int| 0 <= m < i ==> b@[s + m] == t@[m],
        decreases t.len() - i,
    {
        if b[s + i] != t[i] {
            assert(b@.subrange(s as int, e as int)[i as int] != t@[i as int]);
            return false;
        }
        i = i + 1;
    }
    assert(b@.subrange(s as int, e as int) =~= t@);
    true
}

/// The keyword or identifier from `s` up to `e`.
fn lex_word(b: &[u8], s: usize, e: usize) -> (r: Tok)
    requires
        s <= e <= b.len(),
    ensures
        r == word_token(b@, s as int, e as int),
{
    if bytes_are(b, s, e, "if") {
        Tok::If
    } else if bytes_are(b, s, e, "else") {
        Tok::Else
    } else if bytes_are(b, s, e, "elseif") {
        Tok::Elseif
    } else if bytes_are(b, s, e, "end") {
        Tok::End
    } else if bytes_are(b, s, e, "while") {
        Tok::While
    } else if bytes_are(b, s, e, "struct") {
        Tok::Struct
    } else if bytes_are(b, s, e, "mutable") {
        Tok::Mutable
    } else {
        Tok::Ident(s, e)
    }
}

/// The number literal at `i`.
fn lex_number(b: &[u8], i: usize, k: usize) -> (r: Found)
    requires
        i < b.len(),
        is_digit(b@[i as int]),
    ensures
        found_view(r) == number_token(b@, i as int, k as int),
        match r {
            Found::Token(t, j) => i < j <= b.len(),
            Found::Skip(j) => false,
            Found::Bad(_) => true,
        },
{
    let e: usize = find_digits_end(b, i);
    assert(e > i) by {
        assert(digits_end(b@, i as int) == digits_end(b@, i + 1));
        lemma_digits_end(b@, i + 1);
    }
    if peek_byte(b, e, 0) == 46 && digit(peek_byte(b, e, 1)) {
        let e2: usize = find_digits_end(b, e + 1);
        return Found::Token(Tok::Float(i, e2, k), e2);
    }
    match parse_digits(b, i, e) {
        Some(n) => Found::Token(Tok::Int(n), e),
        None => Found::Bad(text("invalid integer")),
    }
}

/// The end of a run of digits is not before its start.
proof fn lemma_digits_end(b: Seq<u8>, i: int)
    requires
        0 <= i <= b.len(),
    ensures
        i <= digits_end(b, i) <= b.len(),
    decreases b.len() - i,
{
    if i < b.len() && is_digit(b[i]) {
        lemma_digits_end(b, i + 1);
    }
}

/// The end of a word is not before its start.
proof fn lemma_word_end(b: Seq<u8>, i: int)
    requires
        0 <= i <= b.len(),
    ensures
        i <= word_end(b, i) <= b.len(),
    decreases b.len() - i,
{
    if i < b.len() && is_word(b[i]) {
        lemma_word_end(b, i + 1);
    }
}

/// The message for a byte that begins no token.
fn unexpected(c: u8) -> (r: Vec<u8>)
    ensures
        r@ == utf8("unexpected character '") + latin_text(c) + utf8("'"),
{
    let mut m: Vec<u8> = text("unexpected character '");
    let ghost m0 = m@;
    if c < 0x80 {
        m.push(c);
    } else {
        m.push(0xc0 + c / 64);
        m.push(0x80 + c % 64);
    }
    assert(m@ =~= m0 + latin_text(c));
    push_text(&mut m, "'");
    m
}

/// What stands at place `i`.
fn scan_at(b: &[u8], i: usize, k: usize) -> (r: Found)
    requires
        i < b.len(),
        k <= i,
    ensures
        found_view(r) == scan(b@, i as int, k as int),
        match r {
            Found::Skip(j) => i < j <= b.len(),
            Found::Token(t, j) => i < j <= b.len(),
            Found::Bad(_) => true,
        },
{
    let c: u8 = peek_byte(b, i, 0);
    let c1: u8 = peek_byte(b, i, 1);
    let c2: u8 = peek_byte(b, i, 2);
    if c == 32 || c == 9 || c == 13 {
        Found::Skip(i + 1)
    } else if c == 35 {
        let j: usize = find_line_end(b, i + 1);
        Found::Skip(j)
    } else if c == 10 || c == 59 {
        Found::Token(Tok::Sep, i + 1)
    } else if c == 43 {
        Found::Token(Tok::Plus, i + 1)
    } else if c == 45 {
        Found::Token(Tok::Minus, i + 1)
    } else if c == 42 {
        Found::Token(Tok::Star, i + 1)
    } else if c == 47 {
        Found::Token(Tok::Slash, i + 1)
    } else if c == 37 {
        Found::Token(Tok::Percent, i + 1)
    } else if c == 38 {
        Found::Token(Tok::Amp, i + 1)
    } else if c == 124 {
        Found::Token(Tok::Pipe, i + 1)
    } else if c == 0xc3 && c1 == 0xb7 {
        Found::Token(Tok::IDiv, i + 2)
    } else if c == 0xe2 && c1 == 0x8a && c2 == 0xbb {
        Found::Token(Tok::Veebar, i + 3)
    } else if c == 40 {
        Found::Token(Tok::LParen, i + 1)
    } else if c == 46 {
        Found::Token(Tok::Dot, i + 1)
    } else if c == 44 {
        Found::Token(Tok::Comma, i + 1)
    } else if c == 58 && c1 == 58 {
        Found::Token(Tok::ColonColon, i + 2)
    } else if c == 41 {
        Found::Token(Tok::RParen, i + 1)
    } else if c == 60 {
        if c1 == 60 {
            Found::Token(Tok::Shl, i + 2)
        } else if c1 == 61 {
            Found::Token(Tok::Le, i + 2)
        } else {
            Found::Token(Tok::Lt, i + 1)
        }
    } else if c == 62 {
        if c1 == 62 && c2 == 62 {
            Found::Token(Tok::Ushr, i + 3)
        } else if c1 == 62 {
            Found::Token(Tok::Shr, i + 2)
        } else if c1 == 61 {
            Found::Token(Tok::Ge, i + 2)
        } else {
            Found::Token(Tok::Gt, i + 1)
        }
    } else if c == 61 {
        if c1 == 61 && c2 == 61 {
            Found::Token(Tok::EqEqEq, i + 3)
        } else if c1 == 61 {
            Found::Token(Tok::EqEq, i + 2)
        } else {
            Found::Token(Tok::Assign, i + 1)
        }
    } else if digit(c) {
        lex_number(b, i, k)
    } else if alpha(c) {
        let e: usize = find_word_end(b, i);
        assert(e > i) by {
            assert(word_end(b@, i as int) == word_end(b@, i + 1));
            lemma_word_end(b@, i + 1);
        }
        Found::Token(lex_word(b, i, e), e)
    } else {
        Found::Bad(unexpected(c))
    }
}

/// Splits the source into tokens.
pub fn lex(b: &[u8]) -> (r: Result<Vec<Tok>, Vec<u8>>)
    ensures
        match r {
            Ok(ts) => tokens(b@, 0, 0) == Ok::<Seq<Tok>, Seq<u8>>(ts@),
            Err(m) => tokens(b@, 0, 0) == Err::<Seq<Tok>, Seq<u8>>(m@),
        },
{
    let mut out: Vec<Tok> = Vec::new();
    let mut i: usize = 0;
    let mut k: usize = 0;
    assert(before(out@, tokens(b@, 0, 0)) == tokens(b@, 0, 0)) by {
        match tokens(b@, 0, 0) {
            Ok(ts) => assert(out@ + ts =~= ts),
            Err(_) => {},
        }
    }
    while i < b.len()
        invariant
            i <= b.len(),
            k <= i,
            tokens(b@, 0, 0) == before(out@, tokens(b@, i as int, k as int)),
        decreases b.len() - i,
    {
        match scan_at(b, i, k) {
            Found::Bad(m) => {
                return Err(m);
            },
            Found::Skip(j) => {
                i = j;
            },
            Found::Token(t, j) => {
                let ghost out0 = out@;
                let ghost rest = tokens(b@, j as int, k + float_count(t));
                out.push(t);
                proof {
                    match rest {
                        Ok(ts) => assert(out0 + (seq![t] + ts) =~= out0.push(t) + ts),
                        Err(_) => {},
                    }
                }
                match t {
                    Tok::Float(_, _, _) => {
                        k = k + 1;
                    },
                    _ => (),
                }
                i = j;
            },
        }
    }
    let ghost out0 = out@;
    out.push(Tok::Eof);
    assert(out@ =~= out0 + seq![Tok::Eof]);
    Ok(out)
}

/// The text of a token in messages.
pub open spec fn token_text(b: Seq<u8>, t: Tok) -> Seq<u8> {
    match t {
        Tok::Int(n) => utf8("Int(") + signed_decimal(n as int) + utf8(")"),
        Tok::Float(s, e, _) => utf8("Float(") + span_text(b, s as int, e as int) + utf8(")"),
        Tok::Ident(s, e) => utf8("Ident(\"") + span_text(b, s as int, e as int) + utf8("\")"),
        Tok::Plus => utf8("Plus"),
        Tok::Minus => utf8("Minus"),
        Tok::Star => utf8("Star"),
        Tok::Slash => utf8("Slash"),
        Tok::IDiv => utf8("IDiv"),
        Tok::Percent => utf8("Percent"),
        Tok::Amp => utf8("Amp"),
        Tok::Pipe => utf8("Pipe"),
        Tok::Veebar => utf8("Veebar"),
        Tok::Shl => utf8("Shl"),
        Tok::Shr => utf8("Shr"),
        Tok::Ushr => utf8("Ushr"),
        Tok::Lt => utf8("Lt"),
        Tok::Le => utf8("Le"),
        Tok::Gt => utf8("Gt"),
        Tok::Ge => utf8("Ge"),
        Tok::EqEq => utf8("EqEq"),
        Tok::EqEqEq => utf8("EqEqEq"),
        Tok::Assign => utf8("Assign"),
        Tok::LParen => utf8("LParen"),
        Tok::RParen => utf8("RParen"),
        Tok::Dot => utf8("Dot"),
        Tok::Comma => utf8("Comma"),
        Tok::ColonColon => utf8("ColonColon"),
        Tok::Sep => utf8("Sep"),
        Tok::If => utf8("If"),
        Tok::Struct => utf8("Struct"),
        Tok::Mutable => utf8("Mutable"),
        Tok::Else => utf8("Else"),
        Tok::Elseif => utf8("Elseif"),
        Tok::End => utf8("End"),
        Tok::While => utf8("While"),
        Tok::Eof => utf8("Eof"),
    }
}

/// The bytes from `s` up to `e`; none where there are no such places.
pub open spec fn span_text(b: Seq<u8>, s: int, e: int) -> Seq<u8> {
    if 0 <= s <= e <= b.len() {
        b.subrange(s, e)
    } else {
        Seq::empty()
    }
}

/// The bytes from `s` up to `e`.
pub fn span(b: &[u8], s: usize, e: usize) -> (r: Vec<u8>)
    ensures
        r@ == span_text(b@, s as int, e as int),
{
    let mut r: Vec<u8> = Vec::new();
    if s <= e && e <= b.len() {
        let mut i: usize = s;
        while i < e
            invariant
                s <= i <= e <= b.len(),
                r.len() == i - s,
                forall|m: int| 0 <= m < i - s ==> r@[m] == b@[s + m],
            decreases e - i,
        {
            r.push(b[i]);
            i = i + 1;
        }
    }
    assert(r@ =~= span_text(b@, s as int, e as int));
    r
}

/// The text of a token in messages.
pub(crate) fn describe(b: &[u8], t: Tok) -> (r: Vec<u8>)
    ensures
        r@ == token_text(b@, t),
{
    match t {
        Tok::Int(n) => {
            let mut m: Vec<u8> = text("Int(");
            let d: Vec<u8> = signed_decimal_text(n);
            push_bytes(&mut m, d.as_slice());
            push_text(&mut m, ")");
            m
        },
        Tok::Float(s, e, _) => {
            let mut m: Vec<u8> = text("Float(");
            let d: Vec<u8> = span(b, s, e);
            push_bytes(&mut m, d.as_slice());
            push_text(&mut m, ")");
            m
        },
        Tok::Ident(s, e) => {
            let mut m: Vec<u8> = text("Ident(\"");
            let d: Vec<u8> = span(b, s, e);
            push_bytes(&mut m, d.as_slice());
            push_text(&mut m, "\")");
            m
        },
        Tok::Plus => text("Plus"),
        Tok::Minus => text("Minus"),
        Tok::Star => text("Star"),
        Tok::Slash => text("Slash"),
        Tok::IDiv => text("IDiv"),
        Tok::Percent => text("Percent"),
        Tok::Amp => text("Amp"),
        Tok::Pipe => text("Pipe"),
        Tok::Veebar => text("Veebar"),
        Tok::Shl => text("Shl"),
        Tok::Shr => text("Shr"),
        Tok::Ushr => text("Ushr"),
        Tok::Lt => text("Lt"),
        Tok::Le => text("Le"),
        Tok::Gt => text("Gt"),
        Tok::Ge => text("Ge"),
        Tok::EqEq => text("EqEq"),
        Tok::EqEqEq => text("EqEqEq"),
        Tok::Assign => text("Assign"),
        Tok::LParen => text("LParen"),
        Tok::RParen => text("RParen"),
        Tok::Dot => text("Dot"),
        Tok::Comma => text("Comma"),
        Tok::ColonColon => text("ColonColon"),
        Tok::Sep => text("Sep"),
        Tok::If => text("If"),
        Tok::Struct => text("Struct"),
        Tok::Mutable => text("Mutable"),
        Tok::Else => text("Else"),
        Tok::Elseif => text("Elseif"),
        Tok::End => text("End"),
        Tok::While => text("While"),
        Tok::Eof => text("Eof"),
    }
}

/// The texts of the floating-point literals among the first `n` tokens, in order.
pub open spec fn float_texts(b: Seq<u8>, ts: Seq<Tok>, n: int) -> Seq<Seq<u8>>
    decreases n,
{
    if n <= 0 || n > ts.len() {
        Seq::empty()
    } else {
        match ts[n - 1] {
            Tok::Float(s, e, _) => float_texts(b, ts, n - 1).push(
                span_text(b, s as int, e as int),
            ),
            _ => float_texts(b, ts, n - 1),
        }
    }
}

/// The texts of the floating-point literals of the source, in order, or the message
/// of the lexer.
pub fn float_literals(b: &[u8]) -> (r: Result<Vec<Vec<u8>>, Vec<u8>>)
    ensures
        match r {
            Ok(xs) => tokens(b@, 0, 0) is Ok && xs@.map_values(|x: Vec<u8>| x@) == float_texts(
                b@,
                tokens(b@, 0, 0)->Ok_0,
                tokens(b@, 0, 0)->Ok_0.len() as int,
            ),
            Err(m) => tokens(b@, 0, 0) == Err::<Seq<Tok>, Seq<u8>>(m@),
        },
{
    let ts: Vec<Tok> = match lex(b) {
        Ok(ts) => ts,
        Err(m) => {
            return Err(m);
        },
    };
    let mut xs: Vec<Vec<u8>> = Vec::new();
    let mut i: usize = 0;
    assert(xs@.map_values(|x: Vec<u8>| x@) =~= float_texts(b@, ts@, 0));
    while i < ts.len()
        invariant
            i <= ts.len(),
            xs@.map_values(|x: Vec<u8>| x@) == float_texts(b@, ts@, i as int),
        decreases ts.len() - i,
    {
        match ts[i] {
            Tok::Float(s, e, _) => {
                let ghost xs0 = xs@;
                let x: Vec<u8> = span(b, s, e);
                xs.push(x);
                assert(xs@.map_values(|x: Vec<u8>| x@) =~= xs0.map_values(
                    |x: Vec<u8>| x@,
                ).push(x@));
            },
            _ => (),
        }
        i = i + 1;
    }
    Ok(xs)
}

/// The tokens of a source end with the end of the source, and hold it nowhere else.
pub proof fn law_tokens_end(b: Seq<u8>, i: int, k: int)
    requires
        0 <= i,
    ensures
        match tokens(b, i, k) {
            Ok(ts) => ts.len() > 0 && ts.last() == Tok::Eof && (forall|j: int|
                0 <= j < ts.len() - 1 ==> ts[j] != Tok::Eof),
            Err(_) => true,
        },
    decreases b.len() - i,
{
    if i < b.len() {
        match scan(b, i, k) {
            Scan::Bad(_) => {},
            Scan::Skip(j) => if i < j <= b.len() {
                law_tokens_end(b, j, k);
            },
            Scan::Token(t, j) => if i < j <= b.len() {
                law_tokens_end(b, j, k + float_count(t));
            },
        }
    }
}

} // verus!
