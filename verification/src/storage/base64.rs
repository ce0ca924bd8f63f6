//! Standard base64 (RFC 4648 alphabet, `=` padding) for the encrypted password
//! records, with the proof that decoding an encoding gives the bytes back.
use vstd::prelude::*;
use crate::text::{chars_of, is_white_space, is_whitespace, push_char, trim_back, trim_front, trimmed};
use crate::storage::crypto::CryptoError;

verus! {

/// The alphabet character for a six-bit value `v` (`0 <= v < 64`).
pub open spec fn b64_char(v: int) -> char {
    if v < 26 {
        ((v + 65) as u8) as char
    } else if v < 52 {
        ((v - 26 + 97) as u8) as char
    } else if v < 62 {
        ((v - 52 + 48) as u8) as char
    } else if v == 62 {
        '+'
    } else {
        '/'
    }
}

/// The six-bit value of an alphabet character, or `None` for any other character.
pub open spec fn b64_value(c: char) -> Option<int> {
    if 'A' <= c && c <= 'Z' {
        Some(c as int - 65)
    } else if 'a' <= c && c <= 'z' {
        Some(c as int - 97 + 26)
    } else if '0' <= c && c <= '9' {
        Some(c as int - 48 + 52)
    } else if c == '+' {
        Some(62)
    } else if c == '/' {
        Some(63)
    } else {
        None
    }
}

/// The value used for an alphabet character inside a group.
pub open spec fn val(c: char) -> int {
    match b64_value(c) {
        Some(v) => v,
        None => 0,
    }
}

/// Four characters for three bytes.
pub open spec fn enc3(b0: u8, b1: u8, b2: u8) -> Seq<char> {
    let n = b0 * 65536 + b1 * 256 + b2;
    seq![b64_char(n / 262144), b64_char(n / 4096 % 64), b64_char(n / 64 % 64), b64_char(n % 64)]
}

/// Four characters (one of them padding) for the last two bytes.
pub open spec fn enc2(b0: u8, b1: u8) -> Seq<char> {
    let n = b0 * 65536 + b1 * 256;
    seq![b64_char(n / 262144), b64_char(n / 4096 % 64), b64_char(n / 64 % 64), '=']
}

/// Four characters (two of them padding) for the last byte.
pub open spec fn enc1(b0: u8) -> Seq<char> {
    let n = b0 * 65536;
    seq![b64_char(n / 262144), b64_char(n / 4096 % 64), '=', '=']
}

/// The base64 encoding of `d`: groups of three bytes become four characters,
/// and a last group of one or two bytes is padded with `=`.
pub open spec fn encoded(d: Seq<u8>) -> Seq<char>
    decreases d.len(),
{
    if d.len() >= 3 {
        enc3(d[0], d[1], d[2]) + encoded(d.skip(3))
    } else if d.len() == 2 {
        enc2(d[0], d[1])
    } else if d.len() == 1 {
        enc1(d[0])
    } else {
        Seq::empty()
    }
}

/// Three bytes from four characters.
pub open spec fn dec4(c0: char, c1: char, c2: char, c3: char) -> Seq<u8> {
    let n = val(c0) * 262144 + val(c1) * 4096 + val(c2) * 64 + val(c3);
    seq![(n / 65536) as u8, (n / 256 % 256) as u8, (n % 256) as u8]
}

/// Two bytes from three characters (18 bits: the top 16 of them).
pub open spec fn dec3(c0: char, c1: char, c2: char) -> Seq<u8> {
    let n = val(c0) * 4096 + val(c1) * 64 + val(c2);
    seq![(n / 1024 % 256) as u8, (n / 4 % 256) as u8]
}

/// One byte from two characters (12 bits: the top 8 of them).
pub open spec fn dec2(c0: char, c1: char) -> Seq<u8> {
    let n = val(c0) * 64 + val(c1);
    seq![(n / 16 % 256) as u8]
}

/// The bytes that a run of alphabet characters stands for, read in groups of four;
/// a last group of three gives two bytes, of two gives one byte, of one gives none.
pub open spec fn decode_groups(t: Seq<char>) -> Seq<u8>
    decreases t.len(),
{
    if t.len() >= 4 {
        dec4(t[0], t[1], t[2], t[3]) + decode_groups(t.skip(4))
    } else if t.len() == 3 {
        dec3(t[0], t[1], t[2])
    } else if t.len() == 2 {
        dec2(t[0], t[1])
    } else {
        Seq::empty()
    }
}

/// Characters that decoding skips: padding and line breaks.
pub open spec fn skipped(c: char) -> bool {
    c == '=' || c == '\n' || c == '\r'
}

/// `s` without the skipped characters, in order.
pub open spec fn without_skipped(s: Seq<char>) -> Seq<char>
    decreases s.len(),
{
    if s.len() == 0 {
        Seq::empty()
    } else if skipped(s.last()) {
        without_skipped(s.drop_last())
    } else {
        without_skipped(s.drop_last()).push(s.last())
    }
}

/// Every character belongs to the alphabet.
pub open spec fn all_alphabet(t: Seq<char>) -> bool {
    forall|i: int| 0 <= i < t.len() ==> (#[trigger] b64_value(t[i])) is Some
}

/// What decoding `s` gives: the input is trimmed and stripped of `=`, `\n`, `\r`;
/// any other character outside the alphabet makes it fail.
pub open spec fn decoded(s: Seq<char>) -> Option<Seq<u8>> {
    let t = without_skipped(trimmed(s));
    if all_alphabet(t) {
        Some(decode_groups(t))
    } else {
        None
    }
}

// ---------------------------------------------------------------- proofs

proof fn lemma_char_value(v: int)
    requires
        0 <= v < 64,
    ensures
        b64_value(b64_char(v)) == Some(v),
        !is_whitespace(b64_char(v)),
        !skipped(b64_char(v)),
{
}

proof fn lemma_group3(b0: u8, b1: u8, b2: u8)
    ensures
        ({
            let n = b0 * 65536 + b1 * 256 + b2;
            let m = (n / 262144) * 262144 + (n / 4096 % 64) * 4096 + (n / 64 % 64) * 64 + n % 64;
            &&& m == n
            &&& 0 <= n / 262144 < 64
            &&& (m / 65536) as u8 == b0
            &&& (m / 256 % 256) as u8 == b1
            &&& (m % 256) as u8 == b2
        }),
{
    let n = b0 * 65536 + b1 * 256 + b2;
    assert(n == (n / 262144) * 262144 + (n / 4096 % 64) * 4096 + (n / 64 % 64) * 64 + n % 64
        && n / 262144 < 64) by (nonlinear_arith)
        requires
            0 <= n < 16777216,
    ;
    assert(n / 65536 == b0 && n / 256 % 256 == b1 && n % 256 == b2) by (nonlinear_arith)
        requires
            n == b0 * 65536 + b1 * 256 + b2,
            0 <= b0 < 256,
            0 <= b1 < 256,
            0 <= b2 < 256,
    ;
}

proof fn lemma_group2(b0: u8, b1: u8)
    ensures
        ({
            let n = b0 * 65536 + b1 * 256;
            let m = (n / 262144) * 4096 + (n / 4096 % 64) * 64 + n / 64 % 64;
            &&& 0 <= n / 262144 < 64
            &&& (m / 1024 % 256) as u8 == b0
            &&& (m / 4 % 256) as u8 == b1
        }),
{
    let n = b0 * 65536 + b1 * 256;
    assert(n / 64 == (n / 262144) * 4096 + (n / 4096 % 64) * 64 + n / 64 % 64
        && n / 262144 < 64) by (nonlinear_arith)
        requires
            0 <= n < 16777216,
    ;
    assert(n / 64 / 1024 % 256 == b0 && n / 64 / 4 % 256 == b1) by (nonlinear_arith)
        requires
            n == b0 * 65536 + b1 * 256,
            0 <= b0 < 256,
            0 <= b1 < 256,
    ;
}

proof fn lemma_group1(b0: u8)
    ensures
        ({
            let n = b0 * 65536;
            let m = (n / 262144) * 64 + n / 4096 % 64;
            &&& 0 <= n / 262144 < 64
            &&& (m / 16 % 256) as u8 == b0
        }),
{
    let n = b0 * 65536;
    assert(n / 4096 == (n / 262144) * 64 + n / 4096 % 64 && n / 262144 < 64) by (nonlinear_arith)
        requires
            0 <= n < 16777216,
    ;
    assert(n / 4096 / 16 % 256 == b0) by (nonlinear_arith)
        requires
            n == b0 * 65536,
            0 <= b0 < 256,
    ;
}

/// The encoding of `d` without its padding characters.
pub open spec fn unpadded(d: Seq<u8>) -> Seq<char>
    decreases d.len(),
{
    if d.len() >= 3 {
        enc3(d[0], d[1], d[2]) + unpadded(d.skip(3))
    } else if d.len() == 2 {
        enc2(d[0], d[1]).take(3)
    } else if d.len() == 1 {
        enc1(d[0]).take(2)
    } else {
        Seq::empty()
    }
}

proof fn lemma_without_skipped_concat(a: Seq<char>, b: Seq<char>)
    ensures
        without_skipped(a + b) == without_skipped(a) + without_skipped(b),
    decreases b.len(),
{
    if b.len() == 0 {
        assert(a + b =~= a);
        assert(without_skipped(a) + Seq::<char>::empty() =~= without_skipped(a));
    } else {
        lemma_without_skipped_concat(a, b.drop_last());
        assert((a + b).drop_last() =~= a + b.drop_last());
        assert((a + b).last() == b.last());
        if skipped(b.last()) {
        } else {
            assert(without_skipped(a) + without_skipped(b.drop_last()).push(b.last())
                =~= (without_skipped(a) + without_skipped(b.drop_last())).push(b.last()));
        }
    }
}

proof fn lemma_without_skipped_keeps(s: Seq<char>)
    requires
        forall|i: int| 0 <= i < s.len() ==> !skipped(#[trigger] s[i]),
    ensures
        without_skipped(s) == s,
    decreases s.len(),
{
    if s.len() > 0 {
        lemma_without_skipped_keeps(s.drop_last());
        assert(s.drop_last().push(s.last()) =~= s);
    }
}

proof fn lemma_without_skipped_pads(s: Seq<char>, k: int)
    requires
        0 <= k <= s.len(),
        forall|i: int| 0 <= i < k ==> !skipped(#[trigger] s[i]),
        forall|i: int| k <= i < s.len() ==> #[trigger] s[i] == '=',
    ensures
        without_skipped(s) == s.take(k),
    decreases s.len(),
{
    if s.len() > k {
        lemma_without_skipped_pads(s.drop_last(), k);
        assert(s.drop_last().take(k) =~= s.take(k));
    } else {
        assert(s.take(k) =~= s);
        lemma_without_skipped_keeps(s);
    }
}

proof fn lemma_enc_chars(b0: u8, b1: u8, b2: u8)
    ensures
        forall|i: int| 0 <= i < 4 ==> (#[trigger] b64_value(enc3(b0, b1, b2)[i])) is Some,
        forall|i: int| 0 <= i < 4 ==> !skipped(#[trigger] enc3(b0, b1, b2)[i]),
        forall|i: int| 0 <= i < 3 ==> (#[trigger] b64_value(enc2(b0, b1)[i])) is Some,
        forall|i: int| 0 <= i < 3 ==> !skipped(#[trigger] enc2(b0, b1)[i]),
        forall|i: int| 0 <= i < 2 ==> (#[trigger] b64_value(enc1(b0)[i])) is Some,
        forall|i: int| 0 <= i < 2 ==> !skipped(#[trigger] enc1(b0)[i]),
        !is_whitespace(enc3(b0, b1, b2)[0]),
        !is_whitespace(enc3(b0, b1, b2)[3]),
        !is_whitespace(enc2(b0, b1)[0]),
        !is_whitespace(enc2(b0, b1)[3]),
        !is_whitespace(enc1(b0)[0]),
        !is_whitespace(enc1(b0)[3]),
{
    let n3 = b0 * 65536 + b1 * 256 + b2;
    let n2 = b0 * 65536 + b1 * 256;
    let n1 = b0 * 65536;
    assert(0 <= n3 / 262144 < 64 && 0 <= n2 / 262144 < 64 && 0 <= n1 / 262144 < 64) by (nonlinear_arith)
        requires
            0 <= n3 < 16777216,
            0 <= n2 < 16777216,
            0 <= n1 < 16777216,
    ;
    lemma_char_value(n3 / 262144);
    lemma_char_value(n3 / 4096 % 64);
    lemma_char_value(n3 / 64 % 64);
    lemma_char_value(n3 % 64);
    lemma_char_value(n2 / 262144);
    lemma_char_value(n2 / 4096 % 64);
    lemma_char_value(n2 / 64 % 64);
    lemma_char_value(n1 / 262144);
    lemma_char_value(n1 / 4096 % 64);
}

/// Padding removal turns the encoding into its unpadded form, which is all alphabet.
proof fn lemma_encoded_unpadded(d: Seq<u8>)
    ensures
        without_skipped(encoded(d)) == unpadded(d),
        all_alphabet(unpadded(d)),
        encoded(d).len() > 0 ==> !is_whitespace(encoded(d)[0]),
        encoded(d).len() > 0 ==> !is_whitespace(encoded(d).last()),
    decreases d.len(),
{
    if d.len() >= 3 {
        lemma_encoded_unpadded(d.skip(3));
        let e = enc3(d[0], d[1], d[2]);
        lemma_enc_chars(d[0], d[1], d[2]);
        lemma_without_skipped_concat(e, encoded(d.skip(3)));
        lemma_without_skipped_keeps(e);
        let u = unpadded(d);
        assert forall|i: int| 0 <= i < u.len() implies (#[trigger] b64_value(u[i])) is Some by {
            if i < 4 {
                assert(u[i] == e[i]);
            } else {
                assert(u[i] == unpadded(d.skip(3))[i - 4]);
            }
        }
        if encoded(d.skip(3)).len() > 0 {
            assert(encoded(d).last() == encoded(d.skip(3)).last());
        } else {
            assert(encoded(d).last() == e[3]);
        }
    } else if d.len() == 2 {
        lemma_enc_chars(d[0], d[1], 0);
        lemma_without_skipped_pads(enc2(d[0], d[1]), 3);
    } else if d.len() == 1 {
        lemma_enc_chars(d[0], 0, 0);
        lemma_without_skipped_pads(enc1(d[0]), 2);
    }
}

/// The unpadded encoding decodes to the bytes it came from.
proof fn lemma_decode_unpadded(d: Seq<u8>)
    ensures
        decode_groups(unpadded(d)) == d,
    decreases d.len(),
{
    if d.len() >= 3 {
        lemma_decode_unpadded(d.skip(3));
        let b0 = d[0];
        let b1 = d[1];
        let b2 = d[2];
        let n = b0 * 65536 + b1 * 256 + b2;
        lemma_group3(b0, b1, b2);
        lemma_char_value(n / 262144);
        lemma_char_value(n / 4096 % 64);
        lemma_char_value(n / 64 % 64);
        lemma_char_value(n % 64);
        let u = unpadded(d);
        assert(u.skip(4) =~= unpadded(d.skip(3)));
        assert(dec4(u[0], u[1], u[2], u[3]) =~= seq![b0, b1, b2]);
        assert(d =~= seq![b0, b1, b2] + d.skip(3));
    } else if d.len() == 2 {
        let n = d[0] * 65536 + d[1] * 256;
        lemma_group2(d[0], d[1]);
        lemma_char_value(n / 262144);
        lemma_char_value(n / 4096 % 64);
        lemma_char_value(n / 64 % 64);
        let u = unpadded(d);
        assert(dec3(u[0], u[1], u[2]) =~= d);
    } else if d.len() == 1 {
        let n = d[0] * 65536;
        lemma_group1(d[0]);
        lemma_char_value(n / 262144);
        lemma_char_value(n / 4096 % 64);
        let u = unpadded(d);
        assert(dec2(u[0], u[1]) =~= d);
    } else {
        assert(d =~= Seq::<u8>::empty());
    }
}

/// Decoding the encoding of any byte sequence gives that sequence back.
pub proof fn lemma_decode_encoded(d: Seq<u8>)
    ensures
        decoded(encoded(d)) == Some(d),
{
    let e = encoded(d);
    lemma_encoded_unpadded(d);
    lemma_decode_unpadded(d);
    if e.len() > 0 {
        assert(trim_front(e) == e);
        assert(trim_back(e) == e);
    }
    assert(trimmed(e) == e);
}

// ---------------------------------------------------------------- code

fn alphabet_char(v: u32) -> (c: char)
    requires
        v < 64,
    ensures
        c == b64_char(v as int),
{
    if v < 26 {
        ((v as u8) + 65) as char
    } else if v < 52 {
        ((v as u8) - 26 + 97) as char
    } else if v < 62 {
        ((v as u8) - 52 + 48) as char
    } else if v == 62 {
        '+'
    } else {
        '/'
    }
}

fn alphabet_value(c: char) -> (r: Option<u32>)
    ensures
        r matches Some(v) ==> b64_value(c) == Some(v as int) && v < 64,
        r is None ==> b64_value(c) is None,
{
    if 'A' <= c && c <= 'Z' {
        Some((c as u32) - 65)
    } else if 'a' <= c && c <= 'z' {
        Some((c as u32) - 97 + 26)
    } else if '0' <= c && c <= '9' {
        Some((c as u32) - 48 + 52)
    } else if c == '+' {
        Some(62)
    } else if c == '/' {
        Some(63)
    } else {
        None
    }
}

proof fn lemma_sextets(t: u32)
    requires
        t < 16777216,
    ensures
        (t >> 18) & 0x3F == t / 262144,
        (t >> 12) & 0x3F == t / 4096 % 64,
        (t >> 6) & 0x3F == t / 64 % 64,
        t & 0x3F == t % 64,
{
    assert((t >> 18) & 0x3F == t / 262144) by (bit_vector)
        requires
            t < 16777216,
    ;
    assert((t >> 12) & 0x3F == t / 4096 % 64) by (bit_vector);
    assert((t >> 6) & 0x3F == t / 64 % 64) by (bit_vector);
    assert(t & 0x3F == t % 64) by (bit_vector);
}

proof fn lemma_triple(b0: u32, b1: u32, b2: u32)
    requires
        b0 < 256,
        b1 < 256,
        b2 < 256,
    ensures
        (b0 << 16) | (b1 << 8) | b2 == b0 * 65536 + b1 * 256 + b2,
{
    assert((b0 << 16) | (b1 << 8) | b2 == b0 * 65536 + b1 * 256 + b2) by (bit_vector)
        requires
            b0 < 256,
            b1 < 256,
            b2 < 256,
    ;
}

/// Base64-encodes `data` with the standard alphabet and `=` padding.
pub fn base64_encode(data: &[u8]) -> (r: String)
    ensures
        r@ == encoded(data@),
{
    let mut result = String::new();
    let len = data.len();
    let mut pos: usize = 0;
    assert(data@.skip(0) =~= data@);
    while pos < len
        invariant
            len == data@.len(),
            pos <= len,
            encoded(data@) == result@ + encoded(data@.skip(pos as int)),
        decreases len - pos,
    {
        let rest = len - pos;
        let ghost d = data@.skip(pos as int);
        let b0 = data[pos] as u32;
        let b1: u32 = if rest > 1 { data[pos + 1] as u32 } else { 0 };
        let b2: u32 = if rest > 2 { data[pos + 2] as u32 } else { 0 };
        let triple: u32 = (b0 << 16) | (b1 << 8) | b2;
        proof {
            lemma_triple(b0, b1, b2);
            lemma_sextets(triple);
        }
        let ghost before = result@;
        push_char(&mut result, alphabet_char((triple >> 18) & 0x3F));
        push_char(&mut result, alphabet_char((triple >> 12) & 0x3F));
        if rest > 1 {
            push_char(&mut result, alphabet_char((triple >> 6) & 0x3F));
        } else {
            push_char(&mut result, '=');
        }
        if rest > 2 {
            push_char(&mut result, alphabet_char(triple & 0x3F));
        } else {
            push_char(&mut result, '=');
        }
        if rest >= 3 {
            assert(d.skip(3) =~= data@.skip(pos + 3));
            assert(result@ =~= before + enc3(d[0], d[1], d[2]));
            assert(before + encoded(d) =~= result@ + encoded(data@.skip(pos + 3)));
            pos = pos + 3;
        } else {
            assert(data@.skip(len as int) =~= Seq::<u8>::empty());
            if rest == 2 {
                assert(result@ =~= before + enc2(d[0], d[1]));
            } else {
                assert(result@ =~= before + enc1(d[0]));
            }
            assert(encoded(data@) == result@ + encoded(data@.skip(len as int)));
            pos = len;
        }
    }
    assert(data@.skip(len as int) =~= Seq::<u8>::empty());
    assert(result@ + Seq::<char>::empty() =~= result@);
    result
}

/// The characters of `s` that decoding reads: trimmed, then without padding and line breaks.
fn cleaned_chars(s: &str) -> (t: Vec<char>)
    ensures
        t@ == without_skipped(trimmed(s@)),
{
    let v = chars_of(s);
    let n = v.len();
    let mut lo: usize = 0;
    assert(v@.skip(0) =~= v@);
    while lo < n && is_white_space(v[lo])
        invariant
            v@ == s@,
            n == v@.len(),
            lo <= n,
            trim_front(s@) == trim_front(v@.skip(lo as int)),
        decreases n - lo,
    {
        assert(v@.skip(lo as int).drop_first() =~= v@.skip(lo + 1));
        lo = lo + 1;
    }
    let ghost front = v@.skip(lo as int);
    assert(trim_front(s@) == front);
    let mut hi: usize = n;
    assert(front.take(n - lo) =~= front);
    while hi > lo && is_white_space(v[hi - 1])
        invariant
            lo <= hi <= n,
            n == v@.len(),
            front == v@.skip(lo as int),
            trim_back(front) == trim_back(front.take(hi - lo)),
        decreases hi,
    {
        assert(front.take(hi - lo).drop_last() =~= front.take(hi - 1 - lo));
        assert(front.take(hi - lo).last() == v@[hi - 1]);
        hi = hi - 1;
    }
    assert(trimmed(s@) == front.take(hi - lo));
    assert(front.take(hi - lo) =~= v@.subrange(lo as int, hi as int));
    let mut t: Vec<char> = Vec::new();
    let mut i: usize = lo;
    assert(v@.subrange(lo as int, lo as int) =~= Seq::<char>::empty());
    while i < hi
        invariant
            lo <= i <= hi,
            hi <= n,
            n == v@.len(),
            t@ == without_skipped(v@.subrange(lo as int, i as int)),
        decreases hi - i,
    {
        let c = v[i];
        assert(v@.subrange(lo as int, i + 1).drop_last() =~= v@.subrange(lo as int, i as int));
        assert(v@.subrange(lo as int, i + 1).last() == c);
        if !(c == '=' || c == '\n' || c == '\r') {
            t.push(c);
        }
        i = i + 1;
    }
    t
}

/// Decodes base64 text; surrounding whitespace, `=` and line breaks are ignored, and any
/// other character outside the alphabet gives `CryptoError::InvalidFormat`.
pub fn base64_decode(input: &str) -> (r: Result<Vec<u8>, CryptoError>)
    ensures
        match decoded(input@) {
            Some(d) => r matches Ok(v) && v@ == d,
            None => r == Err::<Vec<u8>, CryptoError>(CryptoError::InvalidFormat),
        },
{
    let t = cleaned_chars(input);
    let n = t.len();
    let mut out: Vec<u8> = Vec::new();
    let mut pos: usize = 0;
    assert(t@.skip(0) =~= t@);
    while pos < n
        invariant
            n == t@.len(),
            t@ == without_skipped(trimmed(input@)),
            pos <= n,
            forall|k: int| 0 <= k < pos ==> (#[trigger] b64_value(t@[k])) is Some,
            decode_groups(t@) == out@ + decode_groups(t@.skip(pos as int)),
        decreases n - pos,
    {
        let rest = n - pos;
        let ghost g = t@.skip(pos as int);
        let ghost before = out@;
        let take: usize = if rest >= 4 { 4 } else { rest };
        let mut vals: Vec<u32> = Vec::new();
        let mut j: usize = 0;
        while j < take
            invariant
                take <= 4,
                pos + take <= n,
                t@ == without_skipped(trimmed(input@)),
                n == t@.len(),
                j <= take,
                vals@.len() == j,
                forall|k: int| 0 <= k < pos ==> (#[trigger] b64_value(t@[k])) is Some,
                forall|k: int| 0 <= k < j ==> b64_value(t@[pos + k]) == Some(#[trigger] vals@[k] as int) && vals@[k] < 64,
            decreases take - j,
        {
            match alphabet_value(t[pos + j]) {
                Some(x) => {
                    vals.push(x);
                }
                None => {
                    assert(b64_value(t@[pos + j]) is None);
                    assert(!all_alphabet(t@));
                    return Err(CryptoError::InvalidFormat);
                }
            }
            j = j + 1;
        }
        assert forall|k: int| 0 <= k < pos + take implies (#[trigger] b64_value(t@[k])) is Some by {
            if k >= pos {
                assert(b64_value(t@[pos + (k - pos)]) == Some(vals@[k - pos] as int));
            }
        }
        if take == 4 {
            let x: u32 = vals[0] * 262144 + vals[1] * 4096 + vals[2] * 64 + vals[3];
            out.push((x / 65536) as u8);
            out.push((x / 256 % 256) as u8);
            out.push((x % 256) as u8);
            assert(g.skip(4) =~= t@.skip(pos + 4));
            assert(out@ =~= before + dec4(g[0], g[1], g[2], g[3]));
        } else if take == 3 {
            let x: u32 = vals[0] * 4096 + vals[1] * 64 + vals[2];
            out.push((x / 1024 % 256) as u8);
            out.push((x / 4 % 256) as u8);
            assert(out@ =~= before + dec3(g[0], g[1], g[2]));
            assert(t@.skip(n as int) =~= Seq::<char>::empty());
        } else if take == 2 {
            let x: u32 = vals[0] * 64 + vals[1];
            out.push((x / 16 % 256) as u8);
            assert(out@ =~= before + dec2(g[0], g[1]));
            assert(t@.skip(n as int) =~= Seq::<char>::empty());
        } else {
            assert(out@ =~= before + decode_groups(g));
            assert(t@.skip(n as int) =~= Seq::<char>::empty());
        }
        pos = pos + take;
    }
    assert(t@.skip(n as int) =~= Seq::<char>::empty());
    assert(out@ + Seq::<u8>::empty() =~= out@);
    Ok(out)
}

} // verus!
