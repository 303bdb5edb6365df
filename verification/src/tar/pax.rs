//! PAX extended header records.

use vstd::prelude::*;
use vstd::string::*;
use vstd::utf8::{encode_utf8, is_ascii_chars};

use crate::bytes::extend;
use crate::inode::Timestamp;
use crate::text::{
    ascii, decimal, digit_count, lemma_numeral_is_ascii, lemma_numeral_len, lemma_numeral_reads_back,
    lemma_quotient_is_less, number_in, padded, push_decimal, push_numeral, push_padded,
};

verus! {

/// Numbers have few digits for their size.
pub proof fn lemma_few_digits(n: nat)
    ensures
        decimal(n).len() <= n / 2 + 1,
    decreases n,
{
    if n >= 10 {
        lemma_quotient_is_less(n, 10);
        lemma_few_digits(n / 10);
    }
}

/// The least number of digits, from `d` up, that suffices to write `body` plus
/// that number of digits.
pub open spec fn own_digits(body: nat, d: nat) -> nat
    decreases
        if d <= body {
            body + 1 - d
        } else {
            0
        },
{
    if decimal(body + d).len() <= d || d > body + 1 {
        d
    } else {
        proof {
            lemma_few_digits(body + d);
        }
        own_digits(body, d + 1)
    }
}

/// The length of a record of `body` bytes with its length, which counts
/// itself, written before them.
pub open spec fn record_len(body: nat) -> nat {
    body + own_digits(body, 1)
}

/// A record: `<len> <key>=<value>\n`, where `<len>` counts itself.
pub open spec fn record(key: Seq<u8>, value: Seq<u8>) -> Seq<u8> {
    ascii(decimal(record_len(key.len() + value.len() + 3))) + seq![32u8] + key + seq![61u8] + value + seq![10u8]
}

proof fn lemma_digits_grow(n: nat)
    ensures
        decimal(n).len() <= decimal(n + 1).len(),
{
    let d = decimal(n + 1).len();
    lemma_numeral_len(n + 1, 10, 1);
    lemma_numeral_len(n + 1, 10, d);
    lemma_numeral_len(n, 10, d);
}

proof fn lemma_own_digits(body: nat, d: nat)
    requires
        1 <= d <= body + 1,
        d == 1 || decimal((body + d - 1) as nat).len() >= d,
    ensures
        decimal(body + own_digits(body, d)).len() == own_digits(body, d),
        d <= own_digits(body, d) <= body + 1,
    decreases body + 1 - d,
{
    lemma_few_digits(body + d);
    if decimal(body + d).len() <= d {
        if d > 1 {
            lemma_digits_grow((body + d - 1) as nat);
        } else {
            lemma_numeral_len(body + d, 10, 1);
        }
    } else {
        lemma_own_digits(body, d + 1);
    }
}

/// The number a record starts with is the record's own length.
pub proof fn lemma_record_counts_itself(key: Seq<u8>, value: Seq<u8>)
    ensures
        ({
            let body = (key.len() + value.len() + 3) as nat;
            let digits = decimal(record_len(body)).len() as int;
            let whole = record(key, value);
            &&& whole.len() == record_len(body)
            &&& number_in(whole.subrange(0, digits), 10) == whole.len()
            &&& whole.subrange(digits, whole.len() as int) == seq![32u8] + key + seq![61u8] + value + seq![10u8]
        }),
{
    let body = (key.len() + value.len() + 3) as nat;
    lemma_own_digits(body, 1);
    let digits = decimal(record_len(body)).len() as int;
    let whole = record(key, value);
    lemma_numeral_reads_back(record_len(body), 10, 0);
    assert(whole.subrange(0, digits) =~= ascii(decimal(record_len(body))));
    assert(whole.subrange(digits, whole.len() as int) =~= seq![32u8] + key + seq![61u8] + value + seq![10u8]);
}

/// Append text that is all ASCII to `out`.
pub(crate) fn push_ascii(out: &mut Vec<u8>, s: &str)
    requires
        is_ascii_chars(s@),
    ensures
        final(out)@ == old(out)@ + ascii(s@),
{
    proof {
        vstd::utf8::is_ascii_chars_encode_utf8(s@);
        assert(encode_utf8(s@) =~= ascii(s@));
    }
    extend(out, s.as_bytes());
}

/// Append the record of `key` and `value` to `out`.
pub fn pax_record(out: &mut Vec<u8>, key: &str, value: &[u8])
    ensures
        final(out)@ == old(out)@ + record(encode_utf8(key@), value@),
{
    let name: &[u8] = key.as_bytes();
    let body: u128 = name.len() as u128 + value.len() as u128 + 3;
    let ghost b = (name@.len() + value@.len() + 3) as nat;
    proof {
        lemma_own_digits(b, 1);
    }
    let mut d: u128 = 1;
    while digit_count(body + d, 10) as u128 > d
        invariant
            body == b,
            body <= 2 * u64::MAX + 3,
            1 <= d <= 129,
            own_digits(b, 1) == own_digits(b, d as nat),
            own_digits(b, 1) <= b + 1,
        decreases 129 - d,
    {
        proof {
            lemma_few_digits((body + d) as nat);
        }
        d += 1;
    }
    let mut text = String::from_str("");
    proof {
        reveal_strlit("");
        lemma_numeral_is_ascii((body + d) as nat, 10);
        assert(d as nat == own_digits(b, 1));
    }
    push_numeral(&mut text, body + d, 10);
    assert(text@ =~= decimal(record_len(b)));
    push_ascii(out, text.as_str());
    out.push(32);
    extend(out, name);
    out.push(61);
    extend(out, value);
    out.push(10);
    assert(out@ =~= old(out)@ + record(encode_utf8(key@), value@));
}

/// A whole number in decimal, with a sign if it is negative.
pub open spec fn signed(n: int) -> Seq<char> {
    if n < 0 {
        "-"@ + decimal((-n) as nat)
    } else {
        decimal(n as nat)
    }
}

/// Whether a time can be written down: before the epoch, the nanoseconds are
/// subtracted from a second.
pub open spec fn is_writable(t: Timestamp) -> bool {
    t.secs < 0 ==> t.nsecs <= 1_000_000_000
}

/// A time as PAX writes it: seconds from the epoch, and a fraction if there
/// is one.
pub open spec fn time_text(t: Timestamp) -> Seq<char> {
    if t.nsecs == 0 {
        signed(t.secs as int)
    } else if t.secs >= 0 {
        decimal(t.secs as nat) + "."@ + padded(t.nsecs as nat, 10, 9)
    } else {
        "-"@ + decimal((-(t.secs + 1)) as nat) + "."@ + padded((1_000_000_000 - t.nsecs) as nat, 10, 9)
    }
}

/// A time as PAX writes it.
pub fn pax_time(t: Timestamp) -> (r: String)
    requires
        is_writable(t),
    ensures
        r@ == time_text(t),
{
    proof {
        reveal_strlit("");
    }
    let mut s = String::from_str("");
    if t.secs >= 0 {
        push_decimal(&mut s, t.secs as u64);
        assert(s@ =~= decimal(t.secs as nat));
        if t.nsecs != 0 {
            s.append(".");
            push_padded(&mut s, t.nsecs as u128, 10, 9);
        }
    } else {
        let below: u64 = (-(t.secs + 1)) as u64;
        s.append("-");
        assert(s@ =~= "-"@);
        if t.nsecs == 0 {
            push_decimal(&mut s, below + 1);
        } else {
            push_decimal(&mut s, below);
            s.append(".");
            push_padded(&mut s, (1_000_000_000 - t.nsecs) as u128, 10, 9);
        }
    }
    s
}

/// A time written down is all ASCII.
pub proof fn lemma_time_is_ascii(t: Timestamp)
    ensures
        is_ascii_chars(time_text(t)),
{
    reveal_strlit("-");
    reveal_strlit(".");
    let below = (-(t.secs + 1)) as nat;
    lemma_numeral_is_ascii((-t.secs) as nat, 10);
    lemma_numeral_is_ascii(t.secs as nat, 10);
    lemma_numeral_is_ascii(below, 10);
    lemma_numeral_is_ascii(t.nsecs as nat, 10);
    lemma_numeral_is_ascii((1_000_000_000 - t.nsecs) as nat, 10);
}

/// A fraction of a second takes nine digits, so a time written down is told
/// apart from any other.
pub proof fn lemma_fraction_has_nine_digits(nsecs: nat)
    requires
        nsecs < 1_000_000_000,
    ensures
        padded(nsecs, 10, 9).len() == 9,
        number_in(ascii(padded(nsecs, 10, 9)), 10) == nsecs,
{
    reveal_with_fuel(vstd::arithmetic::power::pow, 10);
    lemma_numeral_len(nsecs, 10, 9);
    lemma_numeral_reads_back(nsecs, 10, 9);
}

/// Whether `text` says a time in nanoseconds from the epoch: a sign if it is
/// before, whole seconds, and a point and nine digits if there is a fraction.
pub open spec fn says_nanoseconds(text: Seq<char>, total: int) -> bool {
    exists|whole: nat, part: nat|
        part < 1_000_000_000 && total == (if #[trigger] is_before(text) {
            -1int
        } else {
            1int
        }) * (whole * 1_000_000_000 + part) && (is_before(text) ==> total < 0) && #[trigger] is_spelled(
            text,
            whole,
            part,
        )
}

/// Whether a time starts with a minus sign.
pub open spec fn is_before(text: Seq<char>) -> bool {
    text.len() > 0 && text[0] == '-'
}

/// Whether `text`, after the sign if it has one, is `whole` seconds and `part`
/// nanoseconds, written out.
pub open spec fn is_spelled(text: Seq<char>, whole: nat, part: nat) -> bool {
    let digits = if is_before(text) {
        text.skip(1)
    } else {
        text
    };
    digits == if part == 0 {
        decimal(whole)
    } else {
        decimal(whole) + seq!['.'] + padded(part, 10, 9)
    }
}

/// A time that is written says as many nanoseconds from the epoch as it is.
pub proof fn lemma_time_says_itself(t: Timestamp)
    requires
        t.nsecs < 1_000_000_000,
    ensures
        says_nanoseconds(time_text(t), t.secs * 1_000_000_000 + t.nsecs),
{
    reveal_strlit("-");
    reveal_strlit(".");
    let text = time_text(t);
    let total = t.secs * 1_000_000_000 + t.nsecs;
    assert("-"@ =~= seq!['-']);
    assert("."@ =~= seq!['.']);
    if t.secs >= 0 {
        let whole = t.secs as nat;
        let part = t.nsecs as nat;
        lemma_no_sign(whole);
        assert(text[0] == decimal(whole)[0]);
        assert(is_spelled(text, whole, part));
        assert(total == 1 * (whole * 1_000_000_000 + part));
        assert(!is_before(text));
    } else if t.nsecs == 0 {
        let whole = (-t.secs) as nat;
        assert(text.skip(1) =~= decimal(whole));
        assert(is_before(text));
        assert(is_spelled(text, whole, 0));
        assert(total == -1 * (whole * 1_000_000_000 + 0));
    } else {
        let whole = (-(t.secs + 1)) as nat;
        let part = (1_000_000_000 - t.nsecs) as nat;
        assert(text.skip(1) =~= decimal(whole) + seq!['.'] + padded(part, 10, 9));
        assert(is_before(text));
        assert(is_spelled(text, whole, part));
        assert(total == -1 * (whole * 1_000_000_000 + part));
    }
}

proof fn lemma_no_sign(n: nat)
    ensures
        decimal(n).len() > 0,
        decimal(n)[0] != '-',
    decreases n,
{
    if n >= 10 {
        lemma_quotient_is_less(n, 10);
        lemma_no_sign(n / 10);
    }
}

} // verus!
