//! Numbers and names as text.

use vstd::arithmetic::power::{lemma_pow1, lemma_pow_increases, lemma_pow_positive, pow};
use vstd::arithmetic::power2::{lemma2_to64, lemma2_to64_rest, lemma_pow2_adds, lemma_pow2_unfold, pow2};
use vstd::prelude::*;
use vstd::string::*;
use vstd::utf8::*;

use crate::bytes::same_bytes;

verus! {

/// The digit standing for `d`, below sixteen.
pub open spec fn digit_char(d: nat) -> char {
    if d < 10 {
        (48 + d) as char
    } else {
        (87 + d) as char
    }
}

/// Dividing by a base makes a number that has several digits smaller.
pub proof fn lemma_quotient_is_less(n: nat, base: nat)
    ensures
        2 <= base <= n ==> n / base < n,
        2 <= base ==> n % base < base,
{
    if 2 <= base <= n {
        assert(n / base < n) by (nonlinear_arith)
            requires
                2 <= base <= n,
        ;
    }
    if 2 <= base {
        assert(n % base < base) by (nonlinear_arith)
            requires
                2 <= base,
        ;
    }
}

/// `n` written in `base`, without leading zeros.
pub open spec fn numeral(n: nat, base: nat) -> Seq<char>
    decreases n,
{
    if n < base || base < 2 {
        seq![digit_char(n)]
    } else {
        proof {
            lemma_quotient_is_less(n, base);
        }
        numeral(n / base, base).push(digit_char(n % base))
    }
}

/// `n` written in decimal.
pub open spec fn decimal(n: nat) -> Seq<char> {
    numeral(n, 10)
}

/// `n` copies of the character `c`.
pub open spec fn repeated(c: char, n: nat) -> Seq<char> {
    Seq::new(n, |i: int| c)
}

/// `n` written in `base`, with zeros before it up to `width` characters.
pub open spec fn padded(n: nat, base: nat, width: nat) -> Seq<char> {
    let s = numeral(n, base);
    if s.len() >= width {
        s
    } else {
        repeated('0', (width - s.len()) as nat) + s
    }
}

/// The bytes of text that is all ASCII.
pub open spec fn ascii(s: Seq<char>) -> Seq<u8> {
    Seq::new(s.len(), |i: int| s[i] as u8)
}

/// What bytes read as when taken for UTF-8, whatever is not UTF-8 replaced.
pub uninterp spec fn lossy_text(bytes: Seq<u8>) -> Seq<char>;

/// Text of the given bytes.
///
/// Calls `String::from_utf8_lossy`. Its result depends on the bytes alone,
/// and is named `lossy_text`; bytes that are UTF-8 decode to the text they
/// encode. How many replacement characters stand for a malformed piece is
/// left to the function.
#[verifier::external_body]
pub(crate) fn lossy(bytes: &[u8]) -> (s: String)
    ensures
        s@ == lossy_text(bytes@),
        valid_utf8(bytes@) ==> s@ == decode_utf8(bytes@),
{
    String::from_utf8_lossy(bytes).into_owned()
}

/// The digit `d` as text.
fn digit(d: u128) -> (r: &'static str)
    requires
        d < 16,
    ensures
        r@ == seq![digit_char(d as nat)],
{
    proof {
        reveal_strlit("0");
        reveal_strlit("1");
        reveal_strlit("2");
        reveal_strlit("3");
        reveal_strlit("4");
        reveal_strlit("5");
        reveal_strlit("6");
        reveal_strlit("7");
        reveal_strlit("8");
        reveal_strlit("9");
        reveal_strlit("a");
        reveal_strlit("b");
        reveal_strlit("c");
        reveal_strlit("d");
        reveal_strlit("e");
        reveal_strlit("f");
    }
    let r: &'static str = match d {
        0 => "0",
        1 => "1",
        2 => "2",
        3 => "3",
        4 => "4",
        5 => "5",
        6 => "6",
        7 => "7",
        8 => "8",
        9 => "9",
        10 => "a",
        11 => "b",
        12 => "c",
        13 => "d",
        14 => "e",
        _ => "f",
    };
    assert(r@ =~= seq![digit_char(d as nat)]);
    r
}

/// Append `n`, written in `base`, to `s`.
pub fn push_numeral(s: &mut String, n: u128, base: u128)
    requires
        2 <= base <= 16,
    ensures
        final(s)@ == old(s)@ + numeral(n as nat, base as nat),
    decreases n,
{
    if n < base {
        s.append(digit(n));
    } else {
        proof {
            lemma_quotient_is_less(n as nat, base as nat);
        }
        push_numeral(s, n / base, base);
        s.append(digit(n % base));
        assert(s@ =~= old(s)@ + numeral(n as nat, base as nat));
    }
}

/// Append `n` in decimal to `s`.
pub fn push_decimal(s: &mut String, n: u64)
    ensures
        final(s)@ == old(s)@ + decimal(n as nat),
{
    push_numeral(s, n as u128, 10)
}

/// How many digits `n` has in `base`.
pub fn digit_count(n: u128, base: u128) -> (r: usize)
    requires
        2 <= base,
    ensures
        r == numeral(n as nat, base as nat).len(),
        1 <= r <= 128,
{
    let mut left: u128 = n;
    let mut r: usize = 1;
    let ghost mut room: nat = 128;
    proof {
        lemma2_to64();
        lemma2_to64_rest();
        lemma_pow2_adds(64, 64);
        assert(0x1_0000_0000_0000_0000int * 0x1_0000_0000_0000_0000int > u128::MAX) by (nonlinear_arith);
    }
    while left >= base
        invariant
            2 <= base,
            1 <= r,
            r + room == 129,
            1 <= room,
            left < pow2(room),
            numeral(n as nat, base as nat).len() + 1 == numeral(left as nat, base as nat).len() + r,
        decreases left,
    {
        proof {
            lemma_pow2_unfold(room);
            lemma2_to64();
            assert(left / base < pow2((room - 1) as nat)) by (nonlinear_arith)
                requires
                    2 <= base,
                    left < pow2(room),
                    pow2(room) == 2 * pow2((room - 1) as nat),
            ;
            lemma_quotient_is_less(left as nat, base as nat);
            room = (room - 1) as nat;
        }
        left = left / base;
        r += 1;
    }
    r
}

/// Append `n` to `s`, written in `base` with zeros before it up to `width`.
pub fn push_padded(s: &mut String, n: u128, base: u128, width: usize)
    requires
        2 <= base <= 16,
    ensures
        final(s)@ == old(s)@ + padded(n as nat, base as nat, width as nat),
{
    proof {
        reveal_strlit("0");
    }
    let len: usize = digit_count(n, base);
    let mut at: usize = len;
    while at < width
        invariant
            len <= at,
            at <= width || at == len,
            "0"@.len() == 1,
            "0"@[0] == '0',
            s@ == old(s)@ + repeated('0', (at - len) as nat),
        decreases width - at,
    {
        s.append("0");
        assert(s@ =~= old(s)@ + repeated('0', (at + 1 - len) as nat));
        at += 1;
    }
    push_numeral(s, n, base);
    assert(s@ =~= old(s)@ + padded(n as nat, base as nat, width as nat));
}

/// Bytes written in hexadecimal, two digits each.
pub open spec fn hexadecimal(bytes: Seq<u8>) -> Seq<char>
    decreases bytes.len(),
{
    if bytes.len() == 0 {
        Seq::empty()
    } else {
        hexadecimal(bytes.drop_last()) + padded(bytes.last() as nat, 16, 2)
    }
}

/// Bytes written in hexadecimal, two digits each.
pub fn hex(bytes: &[u8]) -> (s: String)
    ensures
        s@ == hexadecimal(bytes@),
{
    let mut s = String::new();
    let mut i: usize = 0;
    assert(s@ =~= hexadecimal(bytes@.take(0)));
    while i < bytes.len()
        invariant
            i <= bytes@.len(),
            s@ == hexadecimal(bytes@.take(i as int)),
        decreases bytes@.len() - i,
    {
        push_padded(&mut s, bytes[i] as u128, 16, 2);
        assert(bytes@.take(i + 1).drop_last() =~= bytes@.take(i as int));
        i += 1;
    }
    assert(bytes@.take(i as int) =~= bytes@);
    s
}

/// Whether UTF-8 has a control character in it: one below the space, the one
/// that ends ASCII, or one of those after it, whose first byte is 0xc2.
pub open spec fn has_controls(bytes: Seq<u8>) -> bool {
    exists|i: int| 0 <= i < bytes.len() && is_control_at(bytes, i)
}

/// Whether a control character starts at byte `i` of UTF-8.
pub open spec fn is_control_at(bytes: Seq<u8>, i: int) -> bool {
    bytes[i] < 0x20 || bytes[i] == 0x7f || (bytes[i] == 0xc2 && i + 1 < bytes.len() && 0x80 <= bytes[i + 1] <= 0x9f)
}

/// The text of bytes, if they are UTF-8 without control characters.
pub fn plain_text(bytes: &[u8]) -> (r: Option<String>)
    ensures
        match r {
            Some(s) => valid_utf8(bytes@) && !has_controls(bytes@) && s@ == decode_utf8(bytes@),
            None => !valid_utf8(bytes@) || has_controls(bytes@),
        },
{
    let s = lossy(bytes);
    proof {
        if valid_utf8(bytes@) {
            decode_utf8_encode_utf8(bytes@);
        }
        encode_utf8_valid_utf8(s@);
    }
    // What is not UTF-8 does not read back from its text.
    if !same_bytes(s.as_str().as_bytes(), bytes) {
        return None;
    }
    let n: usize = bytes.len();
    let mut i: usize = 0;
    while i < n
        invariant
            i <= n,
            n == bytes@.len(),
            forall|j: int| 0 <= j < i ==> !is_control_at(bytes@, j),
        decreases n - i,
    {
        let b: u8 = bytes[i];
        if b < 0x20 || b == 0x7f || (b == 0xc2 && i + 1 < n && 0x80 <= bytes[i + 1] && bytes[i + 1] <= 0x9f) {
            assert(is_control_at(bytes@, i as int));
            return None;
        }
        i += 1;
    }
    Some(s)
}

/// Every numeral is ASCII.
pub proof fn lemma_numeral_is_ascii(n: nat, base: nat)
    requires
        2 <= base <= 16,
    ensures
        is_ascii_chars(numeral(n, base)),
        numeral(n, base).len() >= 1,
    decreases n,
{
    if n >= base {
        lemma_quotient_is_less(n, base);
        lemma_numeral_is_ascii(n / base, base);
    }
}

/// Whether `s` begins with `prefix`.
pub fn begins_with(s: &str, prefix: &str) -> (r: bool)
    ensures
        r == prefix@.is_prefix_of(s@),
{
    let n: usize = prefix.unicode_len();
    if s.unicode_len() < n {
        return false;
    }
    let mut i: usize = 0;
    while i < n
        invariant
            i <= n,
            n == prefix@.len(),
            n <= s@.len(),
            forall|j: int| 0 <= j < i ==> prefix@[j] == s@[j],
        decreases n - i,
    {
        if s.get_char(i) != prefix.get_char(i) {
            return false;
        }
        i += 1;
    }
    assert(prefix@ =~= s@.subrange(0, n as int));
    true
}

/// Whether two texts are the same.
pub fn same_text(a: &str, b: &str) -> (r: bool)
    ensures
        r == (a@ == b@),
{
    let r: bool = a.unicode_len() == b.unicode_len() && begins_with(a, b);
    proof {
        if r {
            assert(a@.subrange(0, a@.len() as int) =~= a@);
        } else if a@ == b@ {
            assert(b@ =~= a@.subrange(0, b@.len() as int));
        }
    }
    r
}

/// The number that ASCII digits stand for.
pub open spec fn number_in(b: Seq<u8>, base: nat) -> nat
    decreases b.len(),
{
    if b.len() == 0 {
        0
    } else {
        number_in(b.drop_last(), base) * base + (b.last() - 48) as nat
    }
}

proof fn lemma_zeros_stand_for_nothing(n: nat, b: Seq<u8>, base: nat)
    ensures
        number_in(ascii(repeated('0', n)) + b, base) == number_in(b, base),
    decreases b.len(), n,
{
    let zeros = ascii(repeated('0', n));
    if b.len() > 0 {
        assert((zeros + b).drop_last() =~= zeros + b.drop_last());
        lemma_zeros_stand_for_nothing(n, b.drop_last(), base);
    } else if n > 0 {
        assert((zeros + b).drop_last() =~= ascii(repeated('0', (n - 1) as nat)) + b);
        lemma_zeros_stand_for_nothing((n - 1) as nat, b, base);
        assert(0 * base == 0) by (nonlinear_arith);
    } else {
        assert(zeros + b =~= b);
    }
}

/// A number written down, with or without zeros before it, reads back as
/// itself.
pub proof fn lemma_numeral_reads_back(n: nat, base: nat, width: nat)
    requires
        2 <= base <= 10,
    ensures
        number_in(ascii(numeral(n, base)), base) == n,
        number_in(ascii(padded(n, base, width)), base) == n,
    decreases n,
{
    let s = numeral(n, base);
    if n < base {
        assert(ascii(s).drop_last() =~= Seq::<u8>::empty());
        assert(number_in(Seq::<u8>::empty(), base) == 0);
        assert(0 * base == 0) by (nonlinear_arith);
        assert(ascii(s).last() == 48 + n);
    } else {
        lemma_quotient_is_less(n, base);
        assert(ascii(s).last() == 48 + n % base);
        lemma_numeral_reads_back(n / base, base, 0);
        assert(ascii(s).drop_last() =~= ascii(numeral(n / base, base)));
        assert(n / base * base + n % base == n) by (nonlinear_arith)
            requires
                base > 0,
        ;
    }
    if s.len() < width {
        let k = (width - s.len()) as nat;
        lemma_zeros_stand_for_nothing(k, ascii(s), base);
        assert(ascii(padded(n, base, width)) =~= ascii(repeated('0', k)) + ascii(s));
    }
}

/// A number has no more than `d` digits just when it is below the `d`th power
/// of the base.
pub proof fn lemma_numeral_len(n: nat, base: nat, d: nat)
    requires
        2 <= base,
        1 <= d,
    ensures
        numeral(n, base).len() <= d <==> n < pow(base as int, d),
        numeral(n, base).len() >= 1,
    decreases n,
{
    let b = base as int;
    lemma_pow1(b);
    lemma_pow_positive(b, d);
    if n < base {
        lemma_pow_increases(base, 1, d);
    } else {
        lemma_quotient_is_less(n, base);
        if d == 1 {
            lemma_numeral_len(n / base, base, 1);
        } else {
            let e = (d - 1) as nat;
            lemma_numeral_len(n / base, base, e);
            assert(pow(b, d) == b * pow(b, e)) by {
                reveal(pow);
            }
            let p = pow(b, e);
            let m = n as int;
            assert(m / b < p <==> m < b * p) by (nonlinear_arith)
                requires
                    b >= 2,
            ;
        }
    }
}

/// Whether a character is a control character: below the space, or from the
/// one that ends ASCII to the end of the block after it.
pub open spec fn is_control(c: char) -> bool {
    c as u32 <= 0x1f || 0x7f <= c as u32 <= 0x9f
}

proof fn lemma_first_control(bytes: Seq<u8>)
    requires
        valid_first_scalar(bytes),
    ensures
        ({
            let k = length_of_first_scalar(bytes);
            let c = decode_first_scalar(bytes);
            &&& 1 <= k <= 4
            &&& k <= bytes.len()
            &&& c <= 0x10ffff
            &&& !(0xd800 <= c <= 0xdfff)
            &&& is_control_at(bytes, 0) <==> (c <= 0x1f || 0x7f <= c <= 0x9f)
            &&& forall|i: int| 1 <= i < k ==> !is_control_at(bytes, i)
        }),
{
    let a = bytes[0];
    if is_leading_byte_width_1(a) {
        assert(a <= 0x7f ==> (a & 0x7f) == a) by (bit_vector);
    } else if is_leading_byte_width_2(a) {
        let b = bytes[1];
        assert(0xc0 <= a <= 0xdf && 0x80 <= b <= 0xbf ==> (((a & 0x1f) as u32) << 6u32) | ((b & 0x3f) as u32) == (a
            - 0xc0) * 64 + (b - 0x80)) by (bit_vector);
    } else if is_leading_byte_width_3(a) {
        let b = bytes[1];
        let c = bytes[2];
        assert((((a & 0x0f) as u32) << 12u32) | (((b & 0x3f) as u32) << 6u32) | ((c & 0x3f) as u32) <= 0xffff)
            by (bit_vector);
    }
}

/// UTF-8 has a control character in it just when its text does.
pub proof fn lemma_controls(bytes: Seq<u8>)
    requires
        valid_utf8(bytes),
    ensures
        has_controls(bytes) <==> exists|i: int|
            0 <= i < decode_utf8(bytes).len() && is_control(#[trigger] decode_utf8(bytes)[i]),
    decreases bytes.len(),
{
    let text = decode_utf8(bytes);
    if bytes.len() > 0 {
        let k = length_of_first_scalar(bytes);
        let rest = pop_first_scalar(bytes);
        let more = decode_utf8(rest);
        lemma_first_control(bytes);
        lemma_controls(rest);
        assert forall|i: int| 0 <= i < rest.len() implies is_control_at(rest, i) == #[trigger] is_control_at(
            bytes,
            i + k,
        ) by {
            assert(rest[i] == bytes[i + k]);
        }
        assert(has_controls(bytes) <==> is_control_at(bytes, 0) || has_controls(rest)) by {
            if has_controls(bytes) {
                let i = choose|i: int| 0 <= i < bytes.len() && is_control_at(bytes, i);
                if i >= k {
                    assert(is_control_at(bytes, (i - k) + k));
                    assert(is_control_at(rest, i - k));
                }
            }
            if has_controls(rest) {
                let i = choose|i: int| 0 <= i < rest.len() && is_control_at(rest, i);
                assert(is_control_at(bytes, i + k));
            }
        }
        assert(forall|i: int| 0 <= i < more.len() ==> text[i + 1] == more[i]);
        assert(is_control(text[0]) == is_control_at(bytes, 0));
        if exists|i: int| 0 <= i < more.len() && is_control(#[trigger] more[i]) {
            let i = choose|i: int| 0 <= i < more.len() && is_control(#[trigger] more[i]);
            assert(is_control(text[i + 1]));
        }
        if exists|i: int| 0 <= i < text.len() && is_control(#[trigger] text[i]) {
            let i = choose|i: int| 0 <= i < text.len() && is_control(#[trigger] text[i]);
            if i > 0 {
                assert(is_control(more[i - 1]));
            }
        }
    }
}

/// The hexadecimal digit of a number below sixteen.
pub open spec fn hex_digit(n: int) -> char {
    seq!['0', '1', '2', '3', '4', '5', '6', '7', '8', '9', 'a', 'b', 'c', 'd', 'e', 'f'][n]
}

proof fn lemma_hex_byte(b: u8)
    ensures
        padded(b as nat, 16, 2) == seq![hex_digit(b as int / 16), hex_digit(b as int % 16)],
{
    reveal_with_fuel(numeral, 3);
    let n = b as nat;
    assert(padded(n, 16, 2) =~= seq![hex_digit(b as int / 16), hex_digit(b as int % 16)]);
}

/// Every byte written in hexadecimal is two digits, that of its upper half and
/// that of its lower half.
pub proof fn lemma_hexadecimal(bytes: Seq<u8>, i: int)
    requires
        0 <= i < bytes.len(),
    ensures
        hexadecimal(bytes).len() == 2 * bytes.len(),
        hexadecimal(bytes)[2 * i] == hex_digit(bytes[i] as int / 16),
        hexadecimal(bytes)[2 * i + 1] == hex_digit(bytes[i] as int % 16),
    decreases bytes.len(),
{
    let front = bytes.drop_last();
    lemma_hex_byte(bytes.last());
    if front.len() > 0 {
        lemma_hexadecimal(front, if i < front.len() {
            i
        } else {
            0
        });
    } else {
        assert(hexadecimal(front) =~= Seq::<char>::empty());
    }
}

} // verus!
