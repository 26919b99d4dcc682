//! Byte-level encodings: big-endian integers, hexadecimal, decimal and UTF-8.
use vstd::prelude::*;
use byteorder::{BigEndian, ByteOrder};

verus! {

/// The four big-endian bytes of `n`.
pub open spec fn be32(n: u32) -> Seq<u8> {
    seq![(n >> 24u32) as u8, (n >> 16u32) as u8, (n >> 8u32) as u8, n as u8]
}

/// The two big-endian bytes of `n`.
pub open spec fn be16(n: u16) -> Seq<u8> {
    seq![(n >> 8u16) as u8, n as u8]
}

/// The integer that four big-endian bytes stand for.
pub open spec fn be32_value(b: Seq<u8>) -> u32 {
    ((b[0] as u32) << 24u32) | ((b[1] as u32) << 16u32) | ((b[2] as u32) << 8u32) | (b[3] as u32)
}

/// The integer that two big-endian bytes stand for.
pub open spec fn be16_value(b: Seq<u8>) -> u16 {
    ((b[0] as u16) << 8u16) | (b[1] as u16)
}

pub proof fn lemma_be32_round_trip(n: u32)
    ensures
        be32_value(be32(n)) == n,
{
    let b = be32(n);
    assert(b[0] == (n >> 24u32) as u8 && b[1] == (n >> 16u32) as u8 && b[2] == (n >> 8u32) as u8
        && b[3] == n as u8);
    assert((((n >> 24u32) as u8 as u32) << 24u32) | (((n >> 16u32) as u8 as u32) << 16u32) | (((n
        >> 8u32) as u8 as u32) << 8u32) | (n as u8 as u32) == n) by (bit_vector);
}

pub proof fn lemma_be16_round_trip(n: u16)
    ensures
        be16_value(be16(n)) == n,
{
    let b = be16(n);
    assert(b[0] == (n >> 8u16) as u8 && b[1] == n as u8);
    assert((((n >> 8u16) as u8 as u16) << 8u16) | (n as u8 as u16) == n) by (bit_vector);
}

/// Relies on byteorder's `BigEndian::write_u32`: it writes `n` most significant byte first.
#[verifier::external_body]
pub(crate) fn be32_bytes(n: u32) -> (r: [u8; 4])
    ensures
        r@ == be32(n),
{
    let mut b = [0u8; 4];
    BigEndian::write_u32(&mut b, n);
    b
}

/// Relies on byteorder's `BigEndian::write_u16`: it writes `n` most significant byte first.
#[verifier::external_body]
pub(crate) fn be16_bytes(n: u16) -> (r: [u8; 2])
    ensures
        r@ == be16(n),
{
    let mut b = [0u8; 2];
    BigEndian::write_u16(&mut b, n);
    b
}

/// Relies on byteorder's `BigEndian::read_u32`: it reads the first four bytes, most
/// significant first, and panics on fewer.
#[verifier::external_body]
pub(crate) fn read_be32(b: &[u8]) -> (r: u32)
    requires
        b@.len() >= 4,
    ensures
        r == be32_value(b@),
{
    BigEndian::read_u32(b)
}

/// Relies on byteorder's `BigEndian::read_u16`: it reads the first two bytes, most
/// significant first, and panics on fewer.
#[verifier::external_body]
pub(crate) fn read_be16(b: &[u8]) -> (r: u16)
    requires
        b@.len() >= 2,
    ensures
        r == be16_value(b@),
{
    BigEndian::read_u16(b)
}

/// The lower-case hexadecimal digit for `v < 16`.
pub open spec fn hex_digit(v: u8) -> char {
    if v < 10 {
        (('0' as u8) + v) as char
    } else {
        (('a' as u8) + v - 10) as char
    }
}

/// Two lower-case hexadecimal digits per byte, high nibble first.
pub open spec fn hex_of(b: Seq<u8>) -> Seq<char>
    decreases b.len(),
{
    if b.len() == 0 {
        Seq::empty()
    } else {
        seq![hex_digit(b[0] / 16), hex_digit(b[0] % 16)] + hex_of(b.drop_first())
    }
}

/// Whether `c` is a hexadecimal digit, in either case.
pub open spec fn is_hex_char(c: char) -> bool {
    ('0' <= c && c <= '9') || ('a' <= c && c <= 'f') || ('A' <= c && c <= 'F')
}

/// The value of a hexadecimal digit.
pub open spec fn hex_value(c: char) -> u8 {
    if '0' <= c && c <= '9' {
        (c as u8 - '0' as u8) as u8
    } else if 'a' <= c && c <= 'f' {
        (c as u8 - 'a' as u8 + 10) as u8
    } else {
        (c as u8 - 'A' as u8 + 10) as u8
    }
}

/// The bytes that a string of hexadecimal digit pairs stands for.
pub open spec fn unhex(s: Seq<char>) -> Seq<u8>
    decreases s.len(),
{
    if s.len() < 2 {
        Seq::empty()
    } else {
        seq![(hex_value(s[0]) * 16 + hex_value(s[1])) as u8] + unhex(s.subrange(2, s.len() as int))
    }
}

/// Whether `s` is an even number of hexadecimal digits.
pub open spec fn is_hex_text(s: Seq<char>) -> bool {
    s.len() % 2 == 0 && forall|i: int| 0 <= i < s.len() ==> is_hex_char(#[trigger] s[i])
}

/// Relies on `hex::encode`: two lower-case digits per byte, high nibble first.
#[verifier::external_body]
pub(crate) fn hex_encode(b: &[u8]) -> (r: String)
    ensures
        r@ == hex_of(b@),
{
    hex::encode(b)
}

/// Relies on `hex::decode`: it fails on an odd length or a character that is not a
/// hexadecimal digit, and otherwise turns each pair of digits into one byte.
#[verifier::external_body]
pub(crate) fn hex_decode(s: &str) -> (r: Option<Vec<u8>>)
    ensures
        r is Some <==> is_hex_text(s@),
        r is Some ==> r->Some_0@ == unhex(s@),
{
    hex::decode(s).ok()
}

/// Relies on `String::from_utf8`: it succeeds exactly on valid UTF-8 and then holds
/// the characters that the bytes encode.
#[verifier::external_body]
pub(crate) fn string_from_utf8(b: Vec<u8>) -> (r: Option<String>)
    ensures
        r is Some <==> vstd::utf8::valid_utf8(b@),
        r is Some ==> r->Some_0@ == vstd::utf8::decode_utf8(b@),
{
    String::from_utf8(b).ok()
}

/// Whether `b` is the ASCII code of a decimal digit.
pub open spec fn is_digit(b: u8) -> bool {
    48 <= b && b <= 57
}

/// The decimal digits of `n`, most significant first, without leading zeros.
pub open spec fn dec(n: nat) -> Seq<u8>
    decreases n,
{
    if n < 10 {
        seq![(48 + n) as u8]
    } else {
        dec(n / 10) + seq![(48 + n % 10) as u8]
    }
}

/// The decimal text of a signed integer: a minus sign before the digits of a negative one.
pub open spec fn signed_dec(n: int) -> Seq<u8> {
    if n < 0 {
        seq![45u8] + dec((-n) as nat)
    } else {
        dec(n as nat)
    }
}

/// The number that a string of decimal digits stands for.
pub open spec fn digits_value(b: Seq<u8>) -> nat
    decreases b.len(),
{
    if b.len() == 0 {
        0
    } else {
        digits_value(b.drop_last()) * 10 + (b.last() - 48) as nat
    }
}

/// Non-empty decimal digits with no leading zero (but for `0` itself).
pub open spec fn is_canonical_decimal(b: Seq<u8>) -> bool {
    &&& b.len() > 0
    &&& forall|i: int| 0 <= i < b.len() ==> is_digit(#[trigger] b[i])
    &&& (b[0] == 48 ==> b.len() == 1)
}

pub proof fn lemma_dec_canonical(n: nat)
    ensures
        is_canonical_decimal(dec(n)),
        digits_value(dec(n)) == n,
        dec(n).len() >= 1,
        n >= 10 ==> dec(n).len() >= 2,
    decreases n,
{
    if n >= 10 {
        lemma_dec_canonical(n / 10);
        let d = dec(n);
        assert(d.drop_last() =~= dec(n / 10));
        assert(d[0] == dec(n / 10)[0]);
        assert(d.last() == (48 + n % 10) as u8);
        assert(n == (n / 10) * 10 + n % 10) by (nonlinear_arith);
        assert(digits_value(d) == digits_value(d.drop_last()) * 10 + (d.last() - 48) as nat);
    } else {
        let d = dec(n);
        assert(d.drop_last() =~= Seq::<u8>::empty());
        assert(digits_value(d.drop_last()) == 0);
        assert(digits_value(d) == digits_value(d.drop_last()) * 10 + (d.last() - 48) as nat);
    }
}

proof fn lemma_digits_positive(b: Seq<u8>)
    requires
        b.len() >= 1,
        forall|i: int| 0 <= i < b.len() ==> is_digit(#[trigger] b[i]),
        b[0] != 48,
    ensures
        digits_value(b) >= 1,
    decreases b.len(),
{
    if b.len() > 1 {
        let c = b.drop_last();
        assert forall|i: int| 0 <= i < c.len() implies is_digit(#[trigger] c[i]) by {
            assert(c[i] == b[i]);
        }
        lemma_digits_positive(c);
    }
}

pub proof fn lemma_canonical_dec(b: Seq<u8>)
    requires
        is_canonical_decimal(b),
    ensures
        dec(digits_value(b)) == b,
    decreases b.len(),
{
    let v = digits_value(b);
    let d = (b.last() - 48) as nat;
    assert(is_digit(b[b.len() - 1]));
    if b.len() == 1 {
        assert(b.drop_last() =~= Seq::<u8>::empty());
        assert(digits_value(b.drop_last()) == 0);
        assert(v == d);
        assert(dec(v) =~= b);
    } else {
        let c = b.drop_last();
        assert forall|i: int| 0 <= i < c.len() implies is_digit(#[trigger] c[i]) by {
            assert(c[i] == b[i]);
        }
        assert(c[0] == b[0]);
        lemma_digits_positive(c);
        lemma_canonical_dec(c);
        let w = digits_value(c);
        assert(v == w * 10 + d);
        assert((w * 10 + d) / 10 == w && (w * 10 + d) % 10 == d) by (nonlinear_arith)
            requires
                d < 10,
        ;
        assert(dec(v) =~= b);
    }
}

/// The digits of `n`, most significant first.
pub fn decimal_bytes(n: u64) -> (r: Vec<u8>)
    ensures
        r@ == dec(n as nat),
    decreases n,
{
    if n < 10 {
        let mut v: Vec<u8> = Vec::new();
        v.push((48 + n) as u8);
        v
    } else {
        let mut v = decimal_bytes(n / 10);
        v.push((48 + n % 10) as u8);
        v
    }
}

/// The decimal text of a signed integer.
pub fn signed_decimal_bytes(n: i64) -> (r: Vec<u8>)
    ensures
        r@ == signed_dec(n as int),
{
    if n < 0 {
        let m: u64 = ((-(n + 1)) as u64) + 1;
        let digits = decimal_bytes(m);
        let mut v: Vec<u8> = Vec::new();
        v.push(45u8);
        append_bytes(&mut v, digits.as_slice());
        assert(v@ =~= seq![45u8] + digits@);
        v
    } else {
        decimal_bytes(n as u64)
    }
}

/// Reads canonical decimal digits; `None` where `b` is not such digits or the
/// number does not fit.
pub fn parse_decimal(b: &[u8]) -> (r: Option<u64>)
    ensures
        r is Some <==> exists|v: u64| dec(v as nat) == b@,
        r is Some ==> dec(r->Some_0 as nat) == b@,
{
    if b.len() == 0 || (b[0] == 48u8 && b.len() != 1) {
        proof {
            if exists|v: u64| dec(v as nat) == b@ {
                let v = choose|v: u64| dec(v as nat) == b@;
                lemma_dec_canonical(v as nat);
            }
        }
        return None;
    }
    let mut acc: u64 = 0;
    let mut i: usize = 0;
    while i < b.len()
        invariant
            0 <= i <= b@.len(),
            b@.len() > 0,
            b@[0] == 48 ==> b@.len() == 1,
            forall|j: int| 0 <= j < i ==> is_digit(#[trigger] b@[j]),
            acc as nat == digits_value(b@.subrange(0, i as int)),
        decreases b@.len() - i,
    {
        let c = b[i];
        if c < 48u8 || c > 57u8 {
            proof {
                if exists|v: u64| dec(v as nat) == b@ {
                    let v = choose|v: u64| dec(v as nat) == b@;
                    lemma_dec_canonical(v as nat);
                    assert(is_digit(b@[i as int]));
                }
            }
            return None;
        }
        let d: u64 = (c - 48u8) as u64;
        assert(b@.subrange(0, i + 1).drop_last() =~= b@.subrange(0, i as int));
        if acc > (u64::MAX - d) / 10 {
            proof {
                if exists|v: u64| dec(v as nat) == b@ {
                    let v = choose|v: u64| dec(v as nat) == b@;
                    lemma_dec_canonical(v as nat);
                    lemma_prefix_value_le(b@, i as int + 1);
                    assert(acc * 10 + d > u64::MAX) by (nonlinear_arith)
                        requires
                            acc > (u64::MAX - d) / 10,
                            d <= 9,
                    ;
                }
            }
            return None;
        }
        assert(acc * 10 + d <= u64::MAX) by (nonlinear_arith)
            requires
                acc <= (u64::MAX - d) / 10,
                d <= 9,
        ;
        acc = acc * 10 + d;
        i = i + 1;
    }
    proof {
        assert(b@.subrange(0, b@.len() as int) =~= b@);
        lemma_canonical_dec(b@);
    }
    Some(acc)
}

proof fn lemma_prefix_value_le(b: Seq<u8>, k: int)
    requires
        0 <= k <= b.len(),
        forall|i: int| 0 <= i < b.len() ==> is_digit(#[trigger] b[i]),
    ensures
        digits_value(b.subrange(0, k)) <= digits_value(b),
    decreases b.len(),
{
    if k < b.len() {
        let c = b.drop_last();
        assert forall|i: int| 0 <= i < c.len() implies is_digit(#[trigger] c[i]) by {
            assert(c[i] == b[i]);
        }
        lemma_prefix_value_le(c, k);
        assert(c.subrange(0, k) =~= b.subrange(0, k));
    } else {
        assert(b.subrange(0, k) =~= b);
    }
}

/// Appends the bytes of `b` to `out`.
pub fn append_bytes(out: &mut Vec<u8>, b: &[u8])
    ensures
        final(out)@ == old(out)@ + b@,
{
    let ghost start = out@;
    let mut i: usize = 0;
    while i < b.len()
        invariant
            0 <= i <= b@.len(),
            out@ == start + b@.subrange(0, i as int),
        decreases b@.len() - i,
    {
        out.push(b[i]);
        i = i + 1;
        assert(out@ =~= start + b@.subrange(0, i as int));
    }
    assert(b@.subrange(0, b@.len() as int) =~= b@);
}

/// Whether two byte strings are equal.
pub fn bytes_equal(a: &[u8], b: &[u8]) -> (r: bool)
    ensures
        r == (a@ == b@),
{
    if a.len() != b.len() {
        return false;
    }
    let mut i: usize = 0;
    while i < a.len()
        invariant
            0 <= i <= a@.len(),
            a@.len() == b@.len(),
            forall|j: int| 0 <= j < i ==> a@[j] == b@[j],
        decreases a@.len() - i,
    {
        if a[i] != b[i] {
            return false;
        }
        i = i + 1;
    }
    assert(a@ =~= b@);
    true
}

/// The first position at or after `from` that holds `byte`.
pub fn find_byte(data: &[u8], from: usize, byte: u8) -> (r: Option<usize>)
    ensures
        r matches Some(i) ==> from <= i < data@.len() && data@[i as int] == byte && forall|j: int|
            from <= j < i ==> data@[j] != byte,
        r is None ==> forall|j: int| from <= j < data@.len() ==> data@[j] != byte,
{
    let mut i: usize = from;
    while i < data.len()
        invariant
            from <= i,
            forall|j: int| from <= j < i ==> data@[j] != byte,
        decreases data@.len() - i,
    {
        if data[i] == byte {
            return Some(i);
        }
        i = i + 1;
    }
    None
}

/// A copy of `data[lo..hi]`.
pub fn copy_range(data: &[u8], lo: usize, hi: usize) -> (r: Vec<u8>)
    requires
        lo <= hi <= data@.len(),
    ensures
        r@ == data@.subrange(lo as int, hi as int),
{
    let mut v: Vec<u8> = Vec::new();
    let mut i: usize = lo;
    while i < hi
        invariant
            lo <= i <= hi,
            hi <= data@.len(),
            v@ == data@.subrange(lo as int, i as int),
        decreases hi - i,
    {
        v.push(data[i]);
        i = i + 1;
        assert(v@ =~= data@.subrange(lo as int, i as int));
    }
    v
}

/// The UTF-8 bytes of a string.
pub fn str_bytes(s: &str) -> (r: Vec<u8>)
    ensures
        r@ == vstd::utf8::encode_utf8(s@),
{
    let mut v: Vec<u8> = Vec::new();
    append_bytes(&mut v, s.as_bytes());
    assert(v@ =~= vstd::utf8::encode_utf8(s@));
    v
}

/// Whether `c` is a lower-case hexadecimal digit.
pub open spec fn is_lower_hex(c: char) -> bool {
    ('0' <= c && c <= '9') || ('a' <= c && c <= 'f')
}

/// Lower-case hexadecimal digit pairs read back give the same text.
pub proof fn lemma_hex_round_trip(s: Seq<char>)
    requires
        s.len() % 2 == 0,
        forall|i: int| 0 <= i < s.len() ==> is_lower_hex(#[trigger] s[i]),
    ensures
        hex_of(unhex(s)) == s,
    decreases s.len(),
{
    if s.len() >= 2 {
        let rest = s.subrange(2, s.len() as int);
        assert forall|i: int| 0 <= i < rest.len() implies is_lower_hex(#[trigger] rest[i]) by {
            assert(rest[i] == s[i + 2]);
        }
        lemma_hex_round_trip(rest);
        let a = hex_value(s[0]);
        let b = hex_value(s[1]);
        assert(is_lower_hex(s[0]) && is_lower_hex(s[1]));
        assert(a < 16 && b < 16);
        let v = (a * 16 + b) as u8;
        assert(v / 16 == a && v % 16 == b) by (nonlinear_arith)
            requires
                a < 16,
                b < 16,
                v == a * 16 + b,
        ;
        assert(hex_digit(a) == s[0]);
        assert(hex_digit(b) == s[1]);
        let u = unhex(s);
        assert(u =~= seq![v] + unhex(rest));
        assert(u.drop_first() =~= unhex(rest));
        assert(hex_of(u) =~= s);
    } else {
        assert(s.len() == 0);
        assert(unhex(s) =~= Seq::<u8>::empty());
    }
}

proof fn lemma_hex_digit(v: u8)
    requires
        v < 16,
    ensures
        is_lower_hex(hex_digit(v)),
        hex_value(hex_digit(v)) == v,
        (hex_digit(v) as u32) < 128,
{
}

/// Hexadecimal text has two lower-case digits per byte.
pub proof fn lemma_hex_of_facts(b: Seq<u8>)
    ensures
        hex_of(b).len() == 2 * b.len(),
        forall|i: int| 0 <= i < hex_of(b).len() ==> is_lower_hex(#[trigger] hex_of(b)[i]),
        forall|i: int| 0 <= i < hex_of(b).len() ==> (#[trigger] hex_of(b)[i] as u32) < 128,
    decreases b.len(),
{
    if b.len() > 0 {
        lemma_hex_of_facts(b.drop_first());
        lemma_hex_digit(b[0] / 16);
        lemma_hex_digit(b[0] % 16);
        let h = hex_of(b);
        let t = hex_of(b.drop_first());
        assert forall|i: int| 0 <= i < h.len() implies is_lower_hex(#[trigger] h[i]) && (h[i] as u32) < 128 by {
            if i >= 2 {
                assert(h[i] == t[i - 2]);
            }
        }
    }
}

/// Hexadecimal text reads back as the bytes it was written from.
pub proof fn lemma_unhex_hex(b: Seq<u8>)
    ensures
        unhex(hex_of(b)) == b,
    decreases b.len(),
{
    if b.len() == 0 {
        assert(unhex(hex_of(b)) =~= b);
    } else {
        lemma_unhex_hex(b.drop_first());
        lemma_hex_of_facts(b.drop_first());
        let s = hex_of(b);
        let hi = b[0] / 16;
        let lo = b[0] % 16;
        lemma_hex_digit(hi);
        lemma_hex_digit(lo);
        assert(s.subrange(2, s.len() as int) =~= hex_of(b.drop_first()));
        assert(b[0] == (b[0] / 16) * 16 + b[0] % 16);
        assert(unhex(s) =~= b);
    }
}

/// The last position in `[lo, hi)` that holds `byte`.
pub fn rfind_byte(data: &[u8], lo: usize, hi: usize, byte: u8) -> (r: Option<usize>)
    requires
        lo <= hi <= data@.len(),
    ensures
        r matches Some(i) ==> lo <= i < hi && data@[i as int] == byte && forall|j: int|
            i < j < hi ==> data@[j] != byte,
        r is None ==> forall|j: int| lo <= j < hi ==> data@[j] != byte,
{
    let mut i: usize = hi;
    while i > lo
        invariant
            lo <= i <= hi,
            hi <= data@.len(),
            forall|j: int| i <= j < hi ==> data@[j] != byte,
        decreases i,
    {
        if data[i - 1] == byte {
            return Some(i - 1);
        }
        i = i - 1;
    }
    None
}

/// Reads a signed decimal: an optional minus sign before canonical digits, with no
/// `-0`; `None` where the text is not that or does not fit.
pub fn parse_signed(b: &[u8]) -> (r: Option<i64>)
    ensures
        r matches Some(v) ==> signed_dec(v as int) == b@,
        forall|v: i64| signed_dec(v as int) == b@ ==> r == Some(v),
{
    proof {
        assert forall|v: i64| signed_dec(v as int) == b@ implies (v < 0 <==> (b@.len() > 0 && b@[0] == 45u8)) by {
            if v >= 0 {
                lemma_dec_canonical(v as nat);
                assert(is_digit(dec(v as nat)[0]));
            }
        }
    }
    if b.len() > 0 && b[0] == 45u8 {
        let digits = slice_subrange_copy(b, 1);
        proof {
            assert forall|v: i64| signed_dec(v as int) == b@ implies dec((-v) as nat) == digits@ && (
            -v) as u64 as nat == -v by {
                assert(b@ =~= seq![45u8] + digits@);
                assert(seq![45u8] + dec((-v) as nat) == seq![45u8] + digits@);
                assert(dec((-v) as nat) =~= (seq![45u8] + digits@).drop_first());
            }
        }
        match parse_decimal(digits.as_slice()) {
            Some(m) => {
                if m == 0 || m > 9223372036854775808u64 {
                    proof {
                        assert forall|v: i64| signed_dec(v as int) == b@ implies false by {
                            lemma_dec_canonical((-v) as nat);
                            lemma_dec_canonical(m as nat);
                            assert(digits_value(dec((-v) as nat)) == -v);
                            assert(digits_value(dec(m as nat)) == m);
                        }
                    }
                    None
                } else {
                    let v: i64 = if m == 9223372036854775808u64 {
                        i64::MIN
                    } else {
                        -(m as i64)
                    };
                    assert(b@ =~= seq![45u8] + digits@);
                    proof {
                        assert forall|w: i64| signed_dec(w as int) == b@ implies w == v by {
                            lemma_dec_canonical((-w) as nat);
                            lemma_dec_canonical(m as nat);
                            assert(digits_value(dec((-w) as nat)) == -w);
                            assert(digits_value(dec(m as nat)) == m);
                        }
                    }
                    Some(v)
                }
            },
            None => None,
        }
    } else {
        proof {
            assert forall|v: i64| signed_dec(v as int) == b@ implies v >= 0 && dec(v as u64 as nat) == b@ by {}
        }
        match parse_decimal(b) {
            Some(m) => {
                if m > i64::MAX as u64 {
                    proof {
                        assert forall|v: i64| signed_dec(v as int) == b@ implies false by {
                            lemma_dec_canonical(v as nat);
                            lemma_dec_canonical(m as nat);
                            assert(digits_value(dec(v as nat)) == v);
                            assert(digits_value(dec(m as nat)) == m);
                        }
                    }
                    None
                } else {
                    proof {
                        assert forall|w: i64| signed_dec(w as int) == b@ implies w == m as i64 by {
                            lemma_dec_canonical(w as nat);
                            lemma_dec_canonical(m as nat);
                            assert(digits_value(dec(w as nat)) == w);
                            assert(digits_value(dec(m as nat)) == m);
                        }
                    }
                    Some(m as i64)
                }
            },
            None => None,
        }
    }
}

fn slice_subrange_copy(b: &[u8], from: usize) -> (r: Vec<u8>)
    requires
        from <= b@.len(),
    ensures
        r@ == b@.subrange(from as int, b@.len() as int),
{
    copy_range(b, from, b.len())
}

/// Hexadecimal text is ASCII: its UTF-8 has one byte per digit and decodes back.
pub proof fn lemma_hex_text(h: Seq<u8>)
    ensures
        vstd::utf8::encode_utf8(hex_of(h)).len() == 2 * h.len(),
        vstd::utf8::valid_utf8(vstd::utf8::encode_utf8(hex_of(h))),
        vstd::utf8::decode_utf8(vstd::utf8::encode_utf8(hex_of(h))) == hex_of(h),
        forall|i: int| 0 <= i < hex_of(h).len() ==> is_lower_hex(#[trigger] hex_of(h)[i]),
        unhex(hex_of(h)) == h,
        forall|i: int| 0 <= i < hex_of(h).len() ==> #[trigger] vstd::utf8::encode_utf8(hex_of(h))[i] == hex_of(h)[i] as u8,
{
    let hx = hex_of(h);
    lemma_hex_of_facts(h);
    lemma_unhex_hex(h);
    assert(vstd::utf8::is_ascii_chars(hx)) by {
        assert forall|i: int| 0 <= i < hx.len() implies '\0' <= #[trigger] hx[i] <= '\u{7f}' by {
            assert((hx[i] as u32) < 128);
        }
    }
    vstd::utf8::is_ascii_chars_encode_utf8(hx);
    vstd::utf8::encode_utf8_valid_utf8(hx);
    vstd::utf8::encode_utf8_decode_utf8(hx);
}

} // verus!
