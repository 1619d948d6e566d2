//! Byte-level encoding: little-endian words, decimal text, and text constants.

use vstd::prelude::*;

verus! {

/// The unsigned 32-bit word whose four little-endian bytes start at `i`.
pub open spec fn word_at(d: Seq<u8>, i: int) -> u32 {
    (d[i] + 0x100 * d[i + 1] + 0x1_0000 * d[i + 2] + 0x100_0000 * d[i + 3]) as u32
}

/// Byte `k` of the little-endian encoding of `w`.
pub open spec fn word_byte(w: u32, k: int) -> u8 {
    if k == 0 {
        (w % 0x100) as u8
    } else if k == 1 {
        ((w / 0x100) % 0x100) as u8
    } else if k == 2 {
        ((w / 0x1_0000) % 0x100) as u8
    } else {
        (w / 0x100_0000) as u8
    }
}

/// The bytes `d` with the little-endian encoding of `w` written at `i`.
pub open spec fn with_word(d: Seq<u8>, i: int, w: u32) -> Seq<u8> {
    Seq::new(
        d.len(),
        |k: int| if i <= k < i + 4 { word_byte(w, k - i) } else { d[k] },
    )
}

/// Whether a word fits in `d` at byte offset `i`.
pub open spec fn word_fits(d: Seq<u8>, i: int) -> bool {
    0 <= i && i + 4 <= d.len()
}

/// Reading back a written word gives that word.
pub proof fn lemma_word_read_write(d: Seq<u8>, i: int, w: u32)
    requires
        word_fits(d, i),
    ensures
        word_at(with_word(d, i, w), i) == w,
{
}

/// Writing a word leaves every disjoint word as it was.
pub proof fn lemma_word_read_other(d: Seq<u8>, i: int, j: int, w: u32)
    requires
        word_fits(d, i),
        word_fits(d, j),
        i + 4 <= j || j + 4 <= i,
    ensures
        word_at(with_word(d, i, w), j) == word_at(d, j),
{
}

/// Reads the little-endian word at byte offset `i`.
pub fn read_word(d: &Vec<u8>, i: usize) -> (w: u32)
    requires
        word_fits(d@, i as int),
    ensures
        w == word_at(d@, i as int),
{
    assert(i + 4 <= d.len());
    let b0: u32 = d[i] as u32;
    let b1: u32 = d[i + 1] as u32;
    let b2: u32 = d[i + 2] as u32;
    let b3: u32 = d[i + 3] as u32;
    b0 + 0x100 * b1 + 0x1_0000 * b2 + 0x100_0000 * b3
}

/// Writes the little-endian word `w` at byte offset `i`.
pub fn write_word(d: &mut Vec<u8>, i: usize, w: u32)
    requires
        word_fits(old(d)@, i as int),
    ensures
        final(d)@ == with_word(old(d)@, i as int, w),
{
    assert(i + 4 <= d.len());
    d.set(i, (w % 0x100) as u8);
    d.set(i + 1, ((w / 0x100) % 0x100) as u8);
    d.set(i + 2, ((w / 0x1_0000) % 0x100) as u8);
    d.set(i + 3, (w / 0x100_0000) as u8);
    assert(d@ =~= with_word(old(d)@, i as int, w));
}

/// `n` zero bytes.
pub open spec fn zeros(n: nat) -> Seq<u8> {
    Seq::new(n, |i: int| 0u8)
}

/// A fresh buffer of `n` zero bytes.
pub fn zero_bytes(n: usize) -> (d: Vec<u8>)
    ensures
        d@ == zeros(n as nat),
{
    let d: Vec<u8> = vec![0u8; n];
    assert(d@ =~= zeros(n as nat));
    d
}

/// Whether two byte strings are equal.
pub fn same_bytes(a: &Vec<u8>, b: &[u8]) -> (r: bool)
    ensures
        r == (a@ == b@),
{
    if a.len() != b.len() {
        return false;
    }
    let mut i: usize = 0;
    while i < a.len()
        invariant
            i <= a.len(),
            a.len() == b.len(),
            forall|k: int| 0 <= k < i ==> a@[k] == b@[k],
        decreases a.len() - i,
    {
        if a[i] != b[i] {
            assert(a@[i as int] != b@[i as int]);
            return false;
        }
        i = i + 1;
    }
    assert(a@ =~= b@);
    true
}

/// An owned copy of a byte string.
pub fn copy_bytes(b: &[u8]) -> (r: Vec<u8>)
    ensures
        r@ == b@,
{
    let mut r: Vec<u8> = Vec::new();
    let mut i: usize = 0;
    while i < b.len()
        invariant
            i <= b.len(),
            r@ =~= b@.take(i as int),
        decreases b.len() - i,
    {
        r.push(b[i]);
        i = i + 1;
    }
    assert(b@.take(b.len() as int) =~= b@);
    r
}

/// The UTF-8 bytes of a string.
pub open spec fn utf8(s: &str) -> Seq<u8> {
    vstd::utf8::encode_utf8(s@)
}

/// The UTF-8 bytes of a string constant.
pub fn text(s: &str) -> (r: Vec<u8>)
    ensures
        r@ == utf8(s),
{
    copy_bytes(s.as_bytes())
}

/// Appends the UTF-8 bytes of `s`.
pub fn push_text(out: &mut Vec<u8>, s: &str)
    ensures
        final(out)@ == old(out)@ + utf8(s),
{
    let b: &[u8] = s.as_bytes();
    push_bytes(out, b);
}

/// Appends a byte string.
pub fn push_bytes(out: &mut Vec<u8>, b: &[u8])
    ensures
        final(out)@ == old(out)@ + b@,
{
    let mut i: usize = 0;
    while i < b.len()
        invariant
            i <= b.len(),
            out@ =~= old(out)@ + b@.take(i as int),
        decreases b.len() - i,
    {
        out.push(b[i]);
        i = i + 1;
    }
    assert(b@.take(b.len() as int) =~= b@);
}

/// The decimal digits of `n`, most significant first.
pub open spec fn decimal(n: nat) -> Seq<u8>
    decreases n,
{
    if n < 10 {
        seq![(48 + n) as u8]
    } else {
        decimal(n / 10).push((48 + n % 10) as u8)
    }
}

/// The decimal text of a signed integer.
pub open spec fn signed_decimal(n: int) -> Seq<u8> {
    if n < 0 {
        seq![45u8] + decimal((-n) as nat)
    } else {
        decimal(n as nat)
    }
}

/// The decimal text of `n`.
pub fn decimal_text(n: u64) -> (r: Vec<u8>)
    ensures
        r@ == decimal(n as nat),
    decreases n,
{
    if n < 10 {
        let mut r: Vec<u8> = Vec::new();
        r.push(48u8 + (n as u8));
        assert(r@ =~= decimal(n as nat));
        r
    } else {
        let mut r: Vec<u8> = decimal_text(n / 10);
        r.push(48u8 + ((n % 10) as u8));
        r
    }
}

/// The decimal text of a signed `n`.
pub fn signed_decimal_text(n: i64) -> (r: Vec<u8>)
    ensures
        r@ == signed_decimal(n as int),
{
    if n < 0 {
        let mut r: Vec<u8> = Vec::new();
        r.push(45u8);
        let m: u64 = (-(n as i128)) as u64;
        let d: Vec<u8> = decimal_text(m);
        push_bytes(&mut r, d.as_slice());
        assert(r@ =~= signed_decimal(n as int));
        r
    } else {
        decimal_text(n as u64)
    }
}

/// The picture of a result whose error is a text.
pub open spec fn told<T>(r: Result<T, Vec<u8>>) -> Result<T, Seq<u8>> {
    match r {
        Ok(x) => Ok(x),
        Err(e) => Err(e@),
    }
}

} // verus!
