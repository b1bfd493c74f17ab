//! Compact text encoding of the explored flags carried by snapshots.
//!
//! A bitmap of `n` flags is written as the decimal `n`, a colon, and one
//! lowercase hexadecimal digit per group of four flags, the first flag of a
//! group in the digit's lowest bit. This keeps the largest boards' snapshots
//! small on the wire.
use vstd::prelude::*;
use vstd::string::StringSliceAdditionalSpecFns;
use vstd::utf8::{encode_utf8, is_ascii_chars, is_ascii_chars_encode_utf8};

verus! {

/// Largest number of flags a received bitmap may declare.
pub const MAX_BITMAP_LEN: usize = 100_000;

/// Why a received bitmap was rejected.
#[derive(Clone, Copy, Debug, PartialEq, Eq, Structural)]
pub enum BitmapError {
    /// The text has no `:` separator.
    MissingSeparator,
    /// The part before the separator is not a decimal `usize`.
    InvalidLength,
    /// The declared length is above the limit or does not match the number of digits.
    LengthMismatch,
    /// A digit after the separator is not hexadecimal.
    InvalidDigit,
}

/// ASCII byte of the decimal digit `d`.
pub open spec fn decimal_byte(d: int) -> u8 {
    (48 + d) as u8
}

/// Decimal ASCII representation of `n`, without leading zeros.
pub open spec fn decimal_bytes(n: nat) -> Seq<u8>
    decreases n,
{
    if n < 10 {
        seq![decimal_byte(n as int)]
    } else {
        decimal_bytes(n / 10).push(decimal_byte((n % 10) as int))
    }
}

/// Lowercase ASCII hexadecimal digit of `v < 16`.
pub open spec fn hex_byte(v: int) -> u8 {
    if v < 10 { (48 + v) as u8 } else { (87 + v) as u8 }
}

/// Flag `i` of `bits` as 0 or 1 (0 past the end).
pub open spec fn flag(bits: Seq<bool>, i: int) -> int {
    if 0 <= i < bits.len() && bits[i] { 1 } else { 0 }
}

/// Value of the `k`-th group of four flags.
pub open spec fn nibble(bits: Seq<bool>, k: int) -> int {
    flag(bits, 4 * k) + 2 * flag(bits, 4 * k + 1) + 4 * flag(bits, 4 * k + 2) + 8 * flag(bits, 4 * k + 3)
}

/// `ceil(n / 4)`.
pub open spec fn groups(n: int) -> int {
    (n + 3) / 4
}

/// The bytes of the encoding of `bits`.
pub open spec fn spec_encode(bits: Seq<bool>) -> Seq<u8> {
    decimal_bytes(bits.len()) + seq![58u8] + Seq::new(
        groups(bits.len() as int) as nat,
        |k: int| hex_byte(nibble(bits, k)),
    )
}

/// The encoding of `bits` as text.
pub open spec fn spec_encode_text(bits: Seq<bool>) -> Seq<char> {
    spec_encode(bits).map_values(|b: u8| b as char)
}

/// An ASCII decimal digit.
pub open spec fn is_decimal(b: u8) -> bool {
    48 <= b <= 57
}

/// Value of a sequence of decimal digits.
pub open spec fn digits_value(t: Seq<u8>) -> nat
    decreases t.len(),
{
    if t.len() == 0 {
        0
    } else {
        digits_value(t.drop_last()) * 10 + (t.last() - 48) as nat
    }
}

/// `p` without one leading `+`.
pub open spec fn strip_plus(p: Seq<u8>) -> Seq<u8> {
    if p.len() > 0 && p[0] == 43u8 { p.drop_first() } else { p }
}

/// Parse of an unsigned decimal (one optional leading `+`, at least one
/// digit, value within `usize`).
pub open spec fn parse_usize(p: Seq<u8>) -> Option<nat> {
    let t = strip_plus(p);
    if t.len() > 0 && (forall|i: int| 0 <= i < t.len() ==> is_decimal(#[trigger] t[i]))
        && digits_value(t) <= usize::MAX {
        Some(digits_value(t))
    } else {
        None
    }
}

/// An ASCII hexadecimal digit (either case).
pub open spec fn is_hex(b: u8) -> bool {
    (48 <= b <= 57) || (97 <= b <= 102) || (65 <= b <= 70)
}

/// Value of a hexadecimal digit.
pub open spec fn hex_value(b: u8) -> int {
    if 48 <= b <= 57 {
        b - 48
    } else if 97 <= b <= 102 {
        b - 87
    } else {
        b - 55
    }
}

/// Bit `i` of `v`.
pub open spec fn bit(v: int, i: int) -> bool {
    (v / pow2(i)) % 2 == 1
}

/// `2^i` for `i < 4`.
pub open spec fn pow2(i: int) -> int {
    if i == 0 { 1 } else if i == 1 { 2 } else if i == 2 { 4 } else { 8 }
}

/// `i` is the first colon of `b`.
pub open spec fn first_colon(b: Seq<u8>, i: int) -> bool {
    &&& 0 <= i < b.len()
    &&& b[i] == 58u8
    &&& forall|j: int| 0 <= j < i ==> b[j] != 58u8
}

/// Result of decoding the bytes `b` of a received bitmap.
pub open spec fn spec_decode(b: Seq<u8>) -> Result<Seq<bool>, BitmapError> {
    if !(exists|i: int| first_colon(b, i)) {
        Err(BitmapError::MissingSeparator)
    } else {
        let c = choose|i: int| first_colon(b, i);
        let data = b.subrange(c + 1, b.len() as int);
        match parse_usize(b.subrange(0, c)) {
            None => Err(BitmapError::InvalidLength),
            Some(n) => if n > MAX_BITMAP_LEN || data.len() != groups(n as int) {
                Err(BitmapError::LengthMismatch)
            } else if exists|k: int| 0 <= k < data.len() && !is_hex(#[trigger] data[k]) {
                Err(BitmapError::InvalidDigit)
            } else {
                Ok(Seq::new(n, |i: int| bit(hex_value(data[i / 4]), i % 4)))
            },
        }
    }
}

/// Append one character to a string with std's `String::push`. Claimed:
/// the characters afterwards are those before followed by `c`.
#[verifier::external_body]
fn push_char(s: &mut String, c: char)
    ensures
        final(s)@ == old(s)@.push(c),
{
    s.push(c);
}

proof fn lemma_decimal_bytes(n: nat)
    ensures
        decimal_bytes(n).len() > 0,
        forall|i: int| 0 <= i < decimal_bytes(n).len() ==> is_decimal(#[trigger] decimal_bytes(n)[i]),
        digits_value(decimal_bytes(n)) == n,
    decreases n,
{
    if n >= 10 {
        lemma_decimal_bytes(n / 10);
        let d = decimal_bytes(n);
        assert(d.drop_last() == decimal_bytes(n / 10));
        assert(d.last() == decimal_byte((n % 10) as int));
        assert((d.last() - 48) as nat == n % 10);
        assert((n / 10) * 10 + n % 10 == n);
        assert(digits_value(d) == digits_value(d.drop_last()) * 10 + (d.last() - 48) as nat);
    } else {
        let d = decimal_bytes(n);
        assert(d.drop_last() =~= Seq::<u8>::empty());
        assert(digits_value(d) == digits_value(d.drop_last()) * 10 + (d.last() - 48) as nat);
    }
}

fn push_decimal(s: &mut String, n: usize)
    ensures
        final(s)@ == old(s)@ + decimal_bytes(n as nat).map_values(|b: u8| b as char),
    decreases n,
{
    if n >= 10 {
        push_decimal(s, n / 10);
    }
    let d = (n % 10) as u32;
    let c = if d == 0 { '0' } else if d == 1 { '1' } else if d == 2 { '2' } else if d == 3 { '3' } else if d
        == 4 { '4' } else if d == 5 { '5' } else if d == 6 { '6' } else if d == 7 { '7' } else if d == 8 {
        '8'
    } else { '9' };
    assert(c == decimal_byte(d as int) as char);
    push_char(s, c);
    proof {
        let m = |b: u8| b as char;
        if n >= 10 {
            assert(decimal_bytes(n as nat) == decimal_bytes((n / 10) as nat).push(decimal_byte(d as int)));
            assert(decimal_bytes(n as nat).map_values(m) =~= decimal_bytes((n / 10) as nat).map_values(m).push(c));
        } else {
            assert(decimal_bytes(n as nat).map_values(m) =~= seq![c]);
        }
    }
}

fn hex_char(v: u32) -> (c: char)
    requires
        v < 16,
    ensures
        c == hex_byte(v as int) as char,
{
    if v == 0 { '0' } else if v == 1 { '1' } else if v == 2 { '2' } else if v == 3 { '3' } else if v == 4 {
        '4'
    } else if v == 5 { '5' } else if v == 6 { '6' } else if v == 7 { '7' } else if v == 8 { '8' } else if v
        == 9 { '9' } else if v == 10 { 'a' } else if v == 11 { 'b' } else if v == 12 { 'c' } else if v == 13 {
        'd'
    } else if v == 14 { 'e' } else { 'f' }
}

/// Encode `bits`: decimal length, `:`, then one hexadecimal digit per group
/// of four flags (first flag in the lowest bit).
pub fn encode_bitmap(bits: &Vec<bool>) -> (text: String)
    ensures
        text@ == spec_encode_text(bits@),
{
    let mut text = String::new();
    push_decimal(&mut text, bits.len());
    push_char(&mut text, ':');
    let n = bits.len();
    let count = n / 4 + if n % 4 == 0 { 0 } else { 1 };
    assert(count == groups(n as int));
    let ghost head = text@;
    let mut k: usize = 0;
    while k < count
        invariant
            k <= count,
            count == groups(n as int),
            n == bits.len(),
            text@ == head + Seq::new(k as nat, |q: int| hex_byte(nibble(bits@, q)) as char),
        decreases count - k,
    {
        let mut v: u32 = 0;
        let base = 4 * k;
        if base < n && bits[base] {
            v = v + 1;
        }
        if base + 1 < n && bits[base + 1] {
            v = v + 2;
        }
        if base + 2 < n && bits[base + 2] {
            v = v + 4;
        }
        if base + 3 < n && bits[base + 3] {
            v = v + 8;
        }
        assert(v == nibble(bits@, k as int));
        let c = hex_char(v);
        push_char(&mut text, c);
        assert(text@ =~= head + Seq::new((k + 1) as nat, |q: int| hex_byte(nibble(bits@, q)) as char));
        k = k + 1;
    }
    assert(text@ =~= spec_encode_text(bits@));
    text
}

proof fn lemma_digits_prefix(t: Seq<u8>, k: int)
    requires
        0 <= k <= t.len(),
        forall|i: int| 0 <= i < t.len() ==> is_decimal(#[trigger] t[i]),
    ensures
        digits_value(t.take(k)) <= digits_value(t),
    decreases t.len(),
{
    if k < t.len() {
        assert(t.drop_last().take(k) == t.take(k));
        assert forall|i: int| 0 <= i < t.drop_last().len() implies is_decimal(#[trigger] t.drop_last()[i]) by {
            assert(t.drop_last()[i] == t[i]);
        }
        lemma_digits_prefix(t.drop_last(), k);
    } else {
        assert(t.take(k) == t);
    }
}

/// Parse the bytes `b[0..c]` as a `usize`.
fn parse_len(b: &[u8], c: usize) -> (r: Option<usize>)
    requires
        c <= b@.len(),
    ensures
        match parse_usize(b@.subrange(0, c as int)) {
            Some(v) => r == Some(v as usize),
            None => r is None,
        },
{
    let ghost prefix = b@.subrange(0, c as int);
    let start: usize = if c > 0 && b[0] == 43u8 { 1 } else { 0 };
    let ghost t = strip_plus(prefix);
    assert(t == b@.subrange(start as int, c as int));
    if start == c {
        return None;
    }
    let mut value: usize = 0;
    let mut j: usize = start;
    while j < c
        invariant
            start <= j <= c,
            c <= b@.len(),
            t == b@.subrange(start as int, c as int),
            t == strip_plus(b@.subrange(0, c as int)),
            forall|q: int| start <= q < j ==> is_decimal(#[trigger] b@[q]),
            value == digits_value(b@.subrange(start as int, j as int)),
        decreases c - j,
    {
        let byte = b[j];
        if byte < 48u8 || byte > 57u8 {
            assert(t[j - start] == b@[j as int]);
            return None;
        }
        let digit = (byte - 48u8) as usize;
        let ghost next = b@.subrange(start as int, j + 1);
        assert(next.drop_last() == b@.subrange(start as int, j as int));
        assert(digits_value(next) == value * 10 + digit);
        let tens = value.checked_mul(10);
        let sum = match tens {
            None => None,
            Some(x) => x.checked_add(digit),
        };
        match sum {
            None => {
                proof {
                    if forall|i: int| 0 <= i < t.len() ==> is_decimal(#[trigger] t[i]) {
                        assert(t.take(j + 1 - start) == next);
                        lemma_digits_prefix(t, j + 1 - start);
                    }
                }
                return None;
            },
            Some(v) => {
                value = v;
            },
        }
        j = j + 1;
    }
    assert(b@.subrange(start as int, c as int) == t);
    Some(value)
}

/// Decode the text of a received bitmap (see [`spec_decode`] for exactly
/// which texts are accepted).
#[verifier::loop_isolation(false)]
pub fn decode_bitmap(text: &str) -> (r: Result<Vec<bool>, BitmapError>)
    ensures
        match spec_decode(text.spec_bytes()) {
            Ok(bits) => r is Ok && r->Ok_0@ == bits,
            Err(e) => r == Err::<Vec<bool>, BitmapError>(e),
        },
{
    let b = text.as_bytes();
    let ghost bs = b@;
    let len = b.len();
    let mut c: usize = 0;
    while c < len && b[c] != 58u8
        invariant
            c <= len,
            len == bs.len(),
            b@ == bs,
            forall|j: int| 0 <= j < c ==> bs[j] != 58u8,
        decreases len - c,
    {
        c = c + 1;
    }
    if c == len {
        assert(!exists|i: int| first_colon(bs, i));
        return Err(BitmapError::MissingSeparator);
    }
    assert(first_colon(bs, c as int));
    assert forall|i: int| first_colon(bs, i) implies i == c by {
        if i < c {
            assert(bs[i] != 58u8);
        } else if i > c {
            assert(bs[c as int] != 58u8);
        }
    }
    assert((choose|i: int| first_colon(bs, i)) == c);
    assert(text.spec_bytes() == bs);
    let ghost data = bs.subrange(c + 1, bs.len() as int);
    let parsed = parse_len(b, c);
    let value = match parsed {
        None => {
            return Err(BitmapError::InvalidLength);
        },
        Some(v) => v,
    };
    let n = value;
    let data_len = len - c - 1;
    let expected = n / 4 + if n % 4 == 0 { 0 } else { 1 };
    assert(expected == groups(n as int));
    if n > MAX_BITMAP_LEN || data_len != expected {
        return Err(BitmapError::LengthMismatch);
    }
    let mut bits: Vec<bool> = Vec::new();
    let mut k: usize = 0;
    while k < data_len
        invariant
            k <= data_len,
            data_len == data.len(),
            data == bs.subrange(c + 1, bs.len() as int),
            len == bs.len(),
            b@ == bs,
            c < len,
            data_len == len - c - 1,
            forall|q: int| 0 <= q < k ==> is_hex(#[trigger] data[q]),
            bits@ == Seq::new(4 * k as nat, |i: int| bit(hex_value(data[i / 4]), i % 4)),
        decreases data_len - k,
    {
        let byte = b[c + 1 + k];
        assert(byte == data[k as int]);
        let v: u8 = if 48u8 <= byte && byte <= 57u8 {
            byte - 48u8
        } else if 97u8 <= byte && byte <= 102u8 {
            byte - 87u8
        } else if 65u8 <= byte && byte <= 70u8 {
            byte - 55u8
        } else {
            assert(!is_hex(data[k as int]));
            return Err(BitmapError::InvalidDigit);
        };
        assert(v as int == hex_value(data[k as int]));
        bits.push(v % 2 == 1);
        bits.push((v / 2) % 2 == 1);
        bits.push((v / 4) % 2 == 1);
        bits.push((v / 8) % 2 == 1);
        assert(bits@ =~= Seq::new(4 * (k + 1) as nat, |i: int| bit(hex_value(data[i / 4]), i % 4)));
        k = k + 1;
    }
    bits.truncate(n);
    assert(!exists|q: int| 0 <= q < data.len() && !is_hex(#[trigger] data[q]));
    assert(bits@ =~= Seq::new(n as nat, |i: int| bit(hex_value(data[i / 4]), i % 4)));
    Ok(bits)
}

proof fn lemma_nibble_bits(f0: int, f1: int, f2: int, f3: int)
    requires
        0 <= f0 <= 1,
        0 <= f1 <= 1,
        0 <= f2 <= 1,
        0 <= f3 <= 1,
    ensures
        bit(f0 + 2 * f1 + 4 * f2 + 8 * f3, 0) == (f0 == 1),
        bit(f0 + 2 * f1 + 4 * f2 + 8 * f3, 1) == (f1 == 1),
        bit(f0 + 2 * f1 + 4 * f2 + 8 * f3, 2) == (f2 == 1),
        bit(f0 + 2 * f1 + 4 * f2 + 8 * f3, 3) == (f3 == 1),
{
}

/// A bitmap survives the wire: decoding the text that encodes any bitmap
/// of at most [`MAX_BITMAP_LEN`] flags gives back exactly those flags.
pub proof fn bitmap_roundtrip(bits: Seq<bool>)
    requires
        bits.len() <= MAX_BITMAP_LEN,
    ensures
        spec_decode(encode_utf8(spec_encode_text(bits))) == Ok::<Seq<bool>, BitmapError>(bits),
{
    let n = bits.len();
    let bytes = spec_encode(bits);
    let dec = decimal_bytes(n);
    lemma_decimal_bytes(n);
    let hex = Seq::new(groups(n as int) as nat, |k: int| hex_byte(nibble(bits, k)));
    assert(bytes == dec + seq![58u8] + hex);
    let text = spec_encode_text(bits);
    assert forall|i: int| 0 <= i < bytes.len() implies #[trigger] bytes[i] < 128 by {
        if i < dec.len() {
            assert(is_decimal(dec[i]));
        } else if i > dec.len() {
            let k = i - dec.len() - 1;
            assert(bytes[i] == hex[k]);
            assert(0 <= nibble(bits, k) < 16);
        }
    }
    assert(is_ascii_chars(text)) by {
        assert forall|i: int| 0 <= i < text.len() implies '\0' <= #[trigger] text[i] <= '\u{7f}' by {
            assert(text[i] == bytes[i] as char);
            assert(bytes[i] < 128);
        }
    }
    is_ascii_chars_encode_utf8(text);
    assert(encode_utf8(text) =~= bytes) by {
        assert forall|i: int| 0 <= i < bytes.len() implies encode_utf8(text)[i] == bytes[i] by {
            assert(text[i] as u8 == encode_utf8(text)[i]);
            assert(text[i] == bytes[i] as char);
            assert(bytes[i] < 128);
        }
    }
    let c = dec.len() as int;
    assert(first_colon(bytes, c)) by {
        assert forall|j: int| 0 <= j < c implies bytes[j] != 58u8 by {
            assert(bytes[j] == dec[j]);
            assert(is_decimal(dec[j]));
        }
    }
    assert forall|i: int| first_colon(bytes, i) implies i == c by {
        if i < c {
            assert(bytes[i] == dec[i]);
            assert(is_decimal(dec[i]));
        } else if i > c {
            assert(bytes[c] == 58u8);
        }
    }
    assert((choose|i: int| first_colon(bytes, i)) == c);
    assert(bytes.subrange(0, c) == dec);
    assert(dec[0] != 43u8) by {
        assert(is_decimal(dec[0]));
    }
    assert(strip_plus(dec) == dec);
    assert(parse_usize(dec) == Some(n));
    let data = bytes.subrange(c + 1, bytes.len() as int);
    assert(data == hex);
    assert forall|k: int| 0 <= k < data.len() implies is_hex(#[trigger] data[k]) by {
        assert(0 <= nibble(bits, k) < 16);
    }
    let decoded = Seq::new(n, |i: int| bit(hex_value(data[i / 4]), i % 4));
    assert forall|i: int| 0 <= i < n implies decoded[i] == bits[i] by {
        let k = i / 4;
        let v = nibble(bits, k);
        assert(0 <= v < 16);
        assert(hex_value(hex_byte(v)) == v);
        assert(data[k] == hex_byte(v));
        lemma_nibble_bits(flag(bits, 4 * k), flag(bits, 4 * k + 1), flag(bits, 4 * k + 2), flag(bits, 4 * k + 3));
        assert(i == 4 * k + i % 4);
    }
    assert(decoded =~= bits);
}


proof fn lemma_decimal_len(n: nat)
    ensures
        n < 10000 ==> decimal_bytes(n).len() <= 4,
    decreases n,
{
    if n >= 10 {
        lemma_decimal_len(n / 10);
        if n < 10000 {
            assert(n / 10 < 1000);
            if n / 10 >= 10 {
                lemma_decimal_len(n / 100);
                assert(n / 10 / 10 == n / 100);
                assert(decimal_bytes(n / 10).len() == decimal_bytes(n / 100).len() + 1);
                if n / 100 >= 10 {
                    assert(n / 100 / 10 == n / 1000);
                    assert(decimal_bytes(n / 100).len() == decimal_bytes(n / 1000).len() + 1);
                    assert(n / 1000 < 10);
                }
            }
        }
    }
}

/// The encoding of a bitmap is its decimal length, a separator and one
/// digit per four flags; the largest maps (5000 cells) take at most 1255
/// characters, well within a 4 KiB message.
pub proof fn bitmap_size(bits: Seq<bool>)
    ensures
        spec_encode_text(bits).len() == decimal_bytes(bits.len()).len() + 1 + groups(bits.len() as int),
        bits.len() <= 5000 ==> spec_encode_text(bits).len() <= 1255,
{
    lemma_decimal_len(bits.len());
}

} // verus!
