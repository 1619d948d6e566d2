//! Lines, words and numbers of a line-oriented text.

use vstd::prelude::*;
use crate::lexer::{byte_at, line_end};

verus! {

/// The length of the white space that begins at `i`: a Unicode white-space character
/// in UTF-8, or none.
pub open spec fn space(b: Seq<u8>, i: int) -> int {
    let c = byte_at(b, i);
    let d = byte_at(b, i + 1);
    let e = byte_at(b, i + 2);
    if i < 0 || i >= b.len() {
        0
    } else if c == 32 || (9 <= c && c <= 13) {
        1
    } else if c == 0xc2 && (d == 0x85 || d == 0xa0) {
        2
    } else if c == 0xe1 && d == 0x9a && e == 0x80 {
        3
    } else if c == 0xe2 && d == 0x80 && ((0x80 <= e && e <= 0x8a) || e == 0xa8 || e == 0xa9 || e
        == 0xaf) {
        3
    } else if c == 0xe2 && d == 0x81 && e == 0x9f {
        3
    } else if c == 0xe3 && d == 0x80 && e == 0x80 {
        3
    } else {
        0
    }
}

/// The places of the words from `i` up to `e`; the word that is being read began at
/// `open`, if that is not negative.
pub open spec fn words(b: Seq<u8>, i: int, e: int, open: int) -> Seq<(usize, usize)>
    decreases (if i < e { e - i } else { 0 }),
{
    if i >= e {
        if open >= 0 {
            seq![(open as usize, e as usize)]
        } else {
            Seq::empty()
        }
    } else if space(b, i) > 0 {
        let rest = words(b, i + space(b, i), e, -1);
        if open >= 0 {
            seq![(open as usize, i as usize)] + rest
        } else {
            rest
        }
    } else {
        words(
            b,
            i + 1,
            e,
            if open >= 0 {
                open
            } else {
                i
            },
        )
    }
}

/// Whether a line with these words counts: it has words, and is no comment.
pub open spec fn counts(b: Seq<u8>, ws: Seq<(usize, usize)>) -> bool {
    ws.len() > 0 && byte_at(b, ws[0].0 as int) != 35
}

/// The words of the lines that count, from `i` on.
pub open spec fn rows(b: Seq<u8>, i: int) -> Seq<Seq<(usize, usize)>>
    decreases (if i < b.len() { b.len() - i } else { 0 }),
{
    if i < 0 || i >= b.len() || line_end(b, i) < i {
        Seq::empty()
    } else {
        let e = line_end(b, i);
        let ws = words(b, i, e, -1);
        let rest = rows(b, e + 1);
        if counts(b, ws) {
            seq![ws] + rest
        } else {
            rest
        }
    }
}

/// The value of a digit; 99 where `c` is none.
pub open spec fn digit_value(c: u8) -> int {
    if 48 <= c && c <= 57 {
        c - 48
    } else if 97 <= c && c <= 102 {
        c - 87
    } else if 65 <= c && c <= 70 {
        c - 55
    } else {
        99
    }
}

/// The number that the digits from `s` up to `e` stand for; at least one is needed.
pub open spec fn number(b: Seq<u8>, s: int, e: int, radix: int) -> Option<nat>
    decreases e - s,
{
    if s < 0 || e <= s || e > b.len() || digit_value(b[e - 1]) >= radix {
        None
    } else if e - 1 == s {
        Some(digit_value(b[s]) as nat)
    } else {
        match number(b, s, e - 1, radix) {
            Some(n) => Some((n * radix + digit_value(b[e - 1])) as nat),
            None => None,
        }
    }
}

/// The number with an optional plus sign from `s` up to `e`.
pub open spec fn natural(b: Seq<u8>, s: int, e: int, radix: int) -> Option<nat> {
    if s < e && byte_at(b, s) == 43 {
        number(b, s + 1, e, radix)
    } else {
        number(b, s, e, radix)
    }
}

/// The size from `s` up to `e`.
pub open spec fn size_at(b: Seq<u8>, s: int, e: int) -> Option<usize> {
    match natural(b, s, e, 10) {
        Some(n) => if n <= usize::MAX {
            Some(n as usize)
        } else {
            None
        },
        None => None,
    }
}

/// The bits from `s` up to `e`, in hexadecimal.
pub open spec fn bits_at(b: Seq<u8>, s: int, e: int) -> Option<u64> {
    match natural(b, s, e, 16) {
        Some(n) => if n <= u64::MAX {
            Some(n as u64)
        } else {
            None
        },
        None => None,
    }
}

/// The integer with an optional sign from `s` up to `e`.
pub open spec fn int_at(b: Seq<u8>, s: int, e: int) -> Option<i64> {
    if s < e && byte_at(b, s) == 45 {
        match number(b, s + 1, e, 10) {
            Some(n) => if n <= 0x8000_0000_0000_0000 {
                Some((-(n as int)) as i64)
            } else {
                None
            },
            None => None,
        }
    } else {
        match natural(b, s, e, 10) {
            Some(n) => if n <= i64::MAX {
                Some(n as i64)
            } else {
                None
            },
            None => None,
        }
    }
}

/// The byte at `i`; zero past the end.
fn byte(b: &[u8], i: usize) -> (r: u8)
    ensures
        r == byte_at(b@, i as int),
{
    if i < b.len() {
        b[i]
    } else {
        0
    }
}

/// The length of the white space that begins at `i`.
fn space_at(b: &[u8], i: usize) -> (r: usize)
    requires
        i < b.len(),
    ensures
        r == space(b@, i as int),
{
    let n: usize = b.len() - i;
    let c: u8 = b[i];
    let d: u8 = if n > 1 {
        b[i + 1]
    } else {
        0
    };
    let e: u8 = if n > 2 {
        b[i + 2]
    } else {
        0
    };
    assert(d == byte_at(b@, i + 1) && e == byte_at(b@, i + 2));
    if c == 32 || (9 <= c && c <= 13) {
        1
    } else if c == 0xc2 && (d == 0x85 || d == 0xa0) {
        2
    } else if c == 0xe1 && d == 0x9a && e == 0x80 {
        3
    } else if c == 0xe2 && d == 0x80 && ((0x80 <= e && e <= 0x8a) || e == 0xa8 || e == 0xa9 || e
        == 0xaf) {
        3
    } else if c == 0xe2 && d == 0x81 && e == 0x9f {
        3
    } else if c == 0xe3 && d == 0x80 && e == 0x80 {
        3
    } else {
        0
    }
}

/// The places of the words from `s` up to `e`.
pub fn split_words(b: &[u8], s: usize, e: usize) -> (r: Vec<(usize, usize)>)
    requires
        s <= e <= b.len(),
    ensures
        r@ == words(b@, s as int, e as int, -1),
{
    let mut r: Vec<(usize, usize)> = Vec::new();
    let mut i: usize = s;
    let mut open: Option<usize> = None;
    let ghost whole = words(b@, s as int, e as int, -1);
    assert(whole =~= r@ + whole);
    while i < e
        invariant
            e <= b.len(),
            open is Some ==> open->0 < i,
            whole == words(b@, s as int, e as int, -1),
            whole == r@ + words(
                b@,
                i as int,
                e as int,
                match open {
                    Some(k) => k as int,
                    None => -1int,
                },
            ),
        decreases (if i < e { e - i } else { 0 }),
    {
        let n: usize = space_at(b, i);
        if n > 0 {
            match open {
                Some(k) => {
                    let ghost before = r@;
                    let ghost rest = words(b@, i + n, e as int, -1);
                    r.push((k, i));
                    assert(before + (seq![(k, i)] + rest) =~= r@ + rest);
                },
                None => {},
            }
            open = None;
            if n >= e - i {
                assert(words(b@, i + n, e as int, -1) == words(b@, e as int, e as int, -1));
                i = e;
            } else {
                i = i + n;
            }
        } else {
            if open.is_none() {
                open = Some(i);
            }
            i = i + 1;
        }
    }
    match open {
        Some(k) => {
            let ghost before = r@;
            r.push((k, e));
            assert(whole =~= r@);
        },
        None => {
            assert(whole =~= r@);
        },
    }
    r
}

/// The place of the end of the line at `i`.
fn end_of_line(b: &[u8], i: usize) -> (r: usize)
    requires
        i <= b.len(),
    ensures
        r == line_end(b@, i as int),
        i <= r <= b.len(),
{
    let mut j: usize = i;
    while j < b.len() && b[j] != 10
        invariant
            i <= j <= b.len(),
            line_end(b@, i as int) == line_end(b@, j as int),
        decreases b.len() - j,
    {
        j = j + 1;
    }
    j
}

/// The contents of some rows.
pub open spec fn rows_view(v: Seq<Vec<(usize, usize)>>) -> Seq<Seq<(usize, usize)>> {
    Seq::new(v.len(), |i: int| v[i]@)
}

/// The words of the lines that count.
pub fn split_rows(b: &[u8]) -> (r: Vec<Vec<(usize, usize)>>)
    ensures
        rows_view(r@) == rows(b@, 0),
{
    let mut r: Vec<Vec<(usize, usize)>> = Vec::new();
    let mut i: usize = 0;
    let ghost whole = rows(b@, 0);
    assert(whole =~= rows_view(r@) + whole);
    while i < b.len()
        invariant
            i <= b.len(),
            whole == rows(b@, 0),
            whole == rows_view(r@) + rows(b@, i as int),
        decreases b.len() - i,
    {
        let e: usize = end_of_line(b, i);
        let ws: Vec<(usize, usize)> = split_words(b, i, e);
        let ghost before = rows_view(r@);
        let ghost rest = rows(b@, e + 1);
        if ws.len() > 0 && byte(b, ws[0].0) != 35 {
            r.push(ws);
            assert(before + (seq![ws@] + rest) =~= rows_view(r@) + rest);
        }
        if e < b.len() {
            i = e + 1;
        } else {
            assert(rest =~= rows(b@, b.len() as int));
            i = e;
        }
    }
    assert(whole =~= rows_view(r@));
    r
}

/// A number that is missing or too large stays so when digits follow.
proof fn lemma_number_grows(b: Seq<u8>, s: int, j: int, e: int, radix: int, limit: int)
    requires
        0 <= s < j <= e <= b.len(),
        2 <= radix,
        match number(b, s, j, radix) {
            Some(n) => n > limit,
            None => true,
        },
    ensures
        match number(b, s, e, radix) {
            Some(n) => n > limit,
            None => true,
        },
    decreases e - j,
{
    if j < e {
        lemma_number_grows(b, s, j, e - 1, radix, limit);
        match number(b, s, e - 1, radix) {
            Some(n) => {
                assert(n * radix >= n) by (nonlinear_arith)
                    requires
                        n >= 0,
                        radix >= 2,
                ;
            },
            None => {},
        }
    }
}

/// The value of a digit.
fn digit(c: u8) -> (r: u64)
    ensures
        r == digit_value(c),
{
    if 48 <= c && c <= 57 {
        (c - 48) as u64
    } else if 97 <= c && c <= 102 {
        (c - 87) as u64
    } else if 65 <= c && c <= 70 {
        (c - 55) as u64
    } else {
        99
    }
}

/// The number that the digits from `s` up to `e` stand for, if there are such digits
/// and it fits.
fn read_number(b: &[u8], s: usize, e: usize, radix: u64) -> (r: Option<u64>)
    requires
        2 <= radix <= 16,
    ensures
        r == match number(b@, s as int, e as int, radix as int) {
            Some(n) => if n <= u64::MAX {
                Some(n as u64)
            } else {
                None
            },
            None => None,
        },
{
    if e <= s || e > b.len() {
        return None;
    }
    let first: u64 = digit(b[s]);
    if first >= radix {
        proof {
            lemma_number_grows(b@, s as int, s + 1, e as int, radix as int, u64::MAX as int);
        }
        return None;
    }
    let mut n: u64 = first;
    let mut j: usize = s + 1;
    while j < e
        invariant
            2 <= radix <= 16,
            s < j <= e <= b.len(),
            number(b@, s as int, j as int, radix as int) == Some(n as nat),
        decreases e - j,
    {
        let d: u64 = digit(b[j]);
        if d >= radix {
            proof {
                lemma_number_grows(b@, s as int, j + 1, e as int, radix as int, u64::MAX as int);
            }
            return None;
        }
        assert(n * radix <= 0x10_0000_0000_0000_0000) by (nonlinear_arith)
            requires
                n <= 0xffff_ffff_ffff_ffff,
                radix <= 16,
        ;
        let wide: u128 = n as u128 * radix as u128 + d as u128;
        assert(number(b@, s as int, j + 1, radix as int) == Some(wide as nat));
        if wide > u64::MAX as u128 {
            proof {
                lemma_number_grows(b@, s as int, j + 1, e as int, radix as int, u64::MAX as int);
            }
            return None;
        }
        n = wide as u64;
        j = j + 1;
    }
    Some(n)
}

/// The number with an optional plus sign from `s` up to `e`, if it fits.
fn read_natural(b: &[u8], s: usize, e: usize, radix: u64) -> (r: Option<u64>)
    requires
        2 <= radix <= 16,
    ensures
        r == match natural(b@, s as int, e as int, radix as int) {
            Some(n) => if n <= u64::MAX {
                Some(n as u64)
            } else {
                None
            },
            None => None,
        },
{
    if s < e && byte(b, s) == 43 {
        read_number(b, s + 1, e, radix)
    } else {
        read_number(b, s, e, radix)
    }
}

/// The size from `s` up to `e`.
pub fn read_size(b: &[u8], s: usize, e: usize) -> (r: Option<usize>)
    ensures
        r == size_at(b@, s as int, e as int),
{
    match read_natural(b, s, e, 10) {
        Some(n) => {
            if n <= usize::MAX as u64 {
                Some(n as usize)
            } else {
                None
            }
        },
        None => None,
    }
}

/// The bits from `s` up to `e`, in hexadecimal.
pub fn read_bits(b: &[u8], s: usize, e: usize) -> (r: Option<u64>)
    ensures
        r == bits_at(b@, s as int, e as int),
{
    read_natural(b, s, e, 16)
}

/// The integer with an optional sign from `s` up to `e`.
pub fn read_int(b: &[u8], s: usize, e: usize) -> (r: Option<i64>)
    ensures
        r == int_at(b@, s as int, e as int),
{
    if s < e && byte(b, s) == 45 {
        match read_number(b, s + 1, e, 10) {
            Some(n) => {
                if n <= 0x8000_0000_0000_0000 {
                    Some((-(n as i128)) as i64)
                } else {
                    None
                }
            },
            None => None,
        }
    } else {
        match read_natural(b, s, e, 10) {
            Some(n) => {
                if n <= i64::MAX as u64 {
                    Some(n as i64)
                } else {
                    None
                }
            },
            None => None,
        }
    }
}

} // verus!
