use vstd::prelude::*;
use vstd::string::*;
use vstd::utf8::*;

verus! {

/// The byte `"`.
pub const QUOTE: u8 = 0x22;

/// The byte `;`.
pub const SEMICOLON: u8 = 0x3b;

/// The byte `}`.
pub const CLOSE: u8 = 0x7d;

/// The bytes of `text`, as UTF-8 lays them out.
#[verifier::opaque]
pub open spec fn bytes_of(text: &str) -> Seq<u8> {
    text.spec_bytes()
}

/// The byte of one ASCII character.
pub open spec fn one(a: char) -> Seq<u8> {
    seq![a as u8]
}

/// The bytes of two ASCII characters.
pub open spec fn two(a: char, b: char) -> Seq<u8> {
    seq![a as u8, b as u8]
}

/// Does `s` begin with `lit`?
pub open spec fn starts_with(s: Seq<u8>, lit: Seq<u8>) -> bool {
    lit.len() <= s.len() && s.take(lit.len() as int) == lit
}

/// Is `b` one of the ASCII digits `0` to `9`?
pub open spec fn is_digit(b: u8) -> bool {
    0x30 <= b <= 0x39
}

/// Is `b` an ASCII letter or digit?
pub open spec fn is_alphanumeric(b: u8) -> bool {
    is_digit(b) || (0x41 <= b <= 0x5a) || (0x61 <= b <= 0x7a)
}

/// Is every byte of `s` a digit?
pub open spec fn all_digits(s: Seq<u8>) -> bool {
    forall|i: int| 0 <= i < s.len() ==> is_digit(#[trigger] s[i])
}

/// Length of the longest prefix of `s` made of digits.
pub open spec fn digit_run(s: Seq<u8>) -> nat
    decreases s.len(),
{
    if s.len() > 0 && is_digit(s[0]) {
        1 + digit_run(s.skip(1))
    } else {
        0
    }
}

/// Length of the longest prefix of `s` made of letters and digits.
pub open spec fn alphanumeric_run(s: Seq<u8>) -> nat
    decreases s.len(),
{
    if s.len() > 0 && is_alphanumeric(s[0]) {
        1 + alphanumeric_run(s.skip(1))
    } else {
        0
    }
}

/// The number that a sequence of decimal digits denotes.
pub open spec fn decimal(digits: Seq<u8>) -> nat
    decreases digits.len(),
{
    if digits.len() == 0 {
        0
    } else {
        decimal(digits.drop_last()) * 10 + (digits.last() - '0' as u8) as nat
    }
}

/// The encodings of the characters of `payload`, in order. Empty where
/// `payload` is not UTF-8.
#[verifier::opaque]
pub open spec fn char_spans(payload: Seq<u8>) -> Seq<Seq<u8>>
    decreases payload.len(),
{
    if payload.len() > 0 && valid_utf8(payload) && 0 < length_of_first_scalar(payload)
        <= payload.len() {
        seq![take_first_scalar(payload)] + char_spans(pop_first_scalar(payload))
    } else {
        seq![]
    }
}

/// The bytes of each string in `parts`.
pub open spec fn spans_of(parts: Seq<&str>) -> Seq<Seq<u8>> {
    Seq::new(parts.len(), |i: int| bytes_of(parts[i]))
}

/// `s` begins with one given byte exactly when it is not empty and that
/// byte comes first.
pub proof fn starts_with_one(s: Seq<u8>, a: char)
    ensures
        starts_with(s, one(a)) <==> s.len() > 0 && s[0] == a as u8,
{
    if s.len() > 0 {
        assert(s.take(1)[0] == s[0]);
        if s[0] == a as u8 {
            assert(s.take(1) =~= one(a));
        }
    }
}

/// `s` begins with two given bytes exactly when it has two bytes and they
/// come first.
pub proof fn starts_with_two(s: Seq<u8>, a: char, b: char)
    ensures
        starts_with(s, two(a, b)) <==> s.len() > 1 && s[0] == a as u8 && s[1] == b as u8,
{
    if s.len() > 1 {
        assert(s.take(2)[0] == s[0]);
        assert(s.take(2)[1] == s[1]);
        if s[0] == a as u8 && s[1] == b as u8 {
            assert(s.take(2) =~= two(a, b));
        }
    }
}

/// A string of one ASCII character is the byte `one` gives.
pub proof fn text_one(lit: &str, a: char)
    requires
        lit@ =~= seq![a],
        a as u32 <= 0x7f,
    ensures
        bytes_of(lit) == one(a),
{
    broadcast use is_ascii_spec_bytes;

    reveal(bytes_of);
    assert(is_ascii(lit));
    assert(bytes_of(lit) =~= one(a));
}

/// A string of two ASCII characters is the bytes `two` gives.
pub proof fn text_two(lit: &str, a: char, b: char)
    requires
        lit@ =~= seq![a, b],
        a as u32 <= 0x7f,
        b as u32 <= 0x7f,
    ensures
        bytes_of(lit) == two(a, b),
{
    broadcast use is_ascii_spec_bytes;

    reveal(bytes_of);
    assert(is_ascii(lit));
    assert(bytes_of(lit) =~= two(a, b));
}

/// A run of digits is no longer than the sequence it opens.
pub proof fn digit_run_bound(s: Seq<u8>)
    ensures
        digit_run(s) <= s.len(),
    decreases s.len(),
{
    if s.len() > 0 && is_digit(s[0]) {
        digit_run_bound(s.skip(1));
    }
}

/// A run of digits is made of digits.
pub proof fn digit_run_digits(s: Seq<u8>)
    ensures
        all_digits(s.take(digit_run(s) as int)),
    decreases s.len(),
{
    if s.len() > 0 && is_digit(s[0]) {
        digit_run_digits(s.skip(1));
        digit_run_bound(s);
        let run = s.take(digit_run(s) as int);
        assert forall|i: int| 0 <= i < run.len() implies is_digit(#[trigger] run[i]) by {
            if i > 0 {
                assert(run[i] == s.skip(1).take(digit_run(s.skip(1)) as int)[i - 1]);
            }
        }
    }
}

/// Digits in front of something that is no digit are a run of their own.
pub proof fn digit_run_of(digits: Seq<u8>, tail: Seq<u8>)
    requires
        all_digits(digits),
        tail.len() > 0 ==> !is_digit(tail[0]),
    ensures
        digit_run(digits + tail) == digits.len(),
    decreases digits.len(),
{
    if digits.len() > 0 {
        assert(is_digit(digits[0]));
        assert((digits + tail).skip(1) =~= digits.skip(1) + tail);
        assert forall|i: int| 0 <= i < digits.skip(1).len() implies is_digit(
            #[trigger] digits.skip(1)[i],
        ) by {
            assert(digits.skip(1)[i] == digits[i + 1]);
        }
        digit_run_of(digits.skip(1), tail);
    } else {
        assert(digits + tail =~= tail);
    }
}

/// A run of letters and digits is no longer than the sequence it opens.
pub proof fn alphanumeric_run_bound(s: Seq<u8>)
    ensures
        alphanumeric_run(s) <= s.len(),
    decreases s.len(),
{
    if s.len() > 0 && is_alphanumeric(s[0]) {
        alphanumeric_run_bound(s.skip(1));
    }
}

/// Every byte of a run of letters and digits is a letter or a digit.
pub proof fn alphanumeric_run_letters(s: Seq<u8>)
    ensures
        forall|i: int| 0 <= i < alphanumeric_run(s) ==> is_alphanumeric(#[trigger] s[i]),
    decreases s.len(),
{
    if s.len() > 0 && is_alphanumeric(s[0]) {
        alphanumeric_run_letters(s.skip(1));
        alphanumeric_run_bound(s);
        assert forall|i: int| 0 <= i < alphanumeric_run(s) implies is_alphanumeric(
            #[trigger] s[i],
        ) by {
            if i > 0 {
                assert(s[i] == s.skip(1)[i - 1]);
            }
        }
    }
}

/// A prefix of a digit sequence denotes no more than the whole.
pub proof fn decimal_prefix(digits: Seq<u8>, k: int)
    requires
        0 <= k <= digits.len(),
        all_digits(digits),
    ensures
        decimal(digits.take(k)) <= decimal(digits),
    decreases digits.len() - k,
{
    if k == digits.len() {
        assert(digits.take(k) =~= digits);
    } else {
        decimal_prefix(digits, k + 1);
        assert(digits.take(k + 1).drop_last() =~= digits.take(k));
        assert(is_digit(digits[k]));
        assert(digits.take(k + 1).last() == digits[k]);
    }
}

/// The first character of UTF-8 text ends at the first boundary behind
/// its start.
pub proof fn first_char_ends(bytes: Seq<u8>, at: int)
    requires
        valid_utf8(bytes),
        0 < at <= bytes.len(),
        is_char_boundary(bytes, at),
        forall|k: int| 0 < k < at ==> !is_char_boundary(bytes, k),
    ensures
        at == length_of_first_scalar(bytes),
{
    reveal_with_fuel(is_char_boundary, 2);
    reveal_with_fuel(valid_utf8, 2);
    let l = length_of_first_scalar(bytes);
    assert(0 < l <= bytes.len());
    assert(is_char_boundary(bytes, l));
}

/// The number of bytes in `text`.
pub(crate) fn byte_len(text: &str) -> (n: usize)
    ensures
        n == bytes_of(text).len(),
{
    proof {
        reveal(bytes_of);
    }
    text.as_bytes().len()
}

/// The byte of `text` at `at`.
pub(crate) fn byte_at(text: &str, at: usize) -> (b: u8)
    requires
        at < bytes_of(text).len(),
    ensures
        b == bytes_of(text)[at as int],
{
    proof {
        reveal(bytes_of);
    }
    text.as_bytes()[at]
}

/// Do `a` and `b` hold the same text?
pub(crate) fn same_text(a: &str, b: &str) -> (same: bool)
    ensures
        same == (bytes_of(a) == bytes_of(b)),
{
    proof {
        reveal(bytes_of);
    }
    let left = a.as_bytes();
    let right = b.as_bytes();
    if left.len() != right.len() {
        return false;
    }
    let mut i: usize = 0;
    while i < left.len()
        invariant
            left@ == bytes_of(a),
            right@ == bytes_of(b),
            left.len() == right.len(),
            i <= left.len(),
            forall|k: int| 0 <= k < i ==> left@[k] == right@[k],
        decreases left.len() - i,
    {
        if left[i] != right[i] {
            return false;
        }
        i += 1;
    }
    proof {
        assert(left@ =~= right@);
    }
    true
}

/// Cuts `text` in two before the byte at `at`, which is the end of
/// `text` or a byte below 0x80 and so begins a character.
pub(crate) fn split_text<'a>(text: &'a str, at: usize) -> (parts: (&'a str, &'a str))
    requires
        at <= bytes_of(text).len(),
        at < bytes_of(text).len() ==> bytes_of(text)[at as int] < 0x80,
    ensures
        bytes_of(parts.0) == bytes_of(text).take(at as int),
        bytes_of(parts.1) == bytes_of(text).skip(at as int),
{
    proof {
        reveal(bytes_of);
        let all = text.spec_bytes();
        encode_utf8_valid_utf8(text@);
        if at < all.len() {
            let b = all[at as int];
            assert(b < 0x80 ==> !is_continuation_byte(b)) by (bit_vector);
            is_char_boundary_iff_not_is_continuation_byte(all, at as int);
        } else {
            is_char_boundary_start_end_of_seq(all);
        }
    }
    text.split_at(at)
}

/// Splits `payload` into its characters, each as the part of `payload`
/// that encodes it.
pub fn split_chars<'a>(payload: &'a str) -> (parts: Vec<&'a str>)
    ensures
        spans_of(parts@) == char_spans(bytes_of(payload)),
{
    let mut parts: Vec<&'a str> = Vec::new();
    let mut left: &'a str = payload;
    proof {
        reveal(char_spans);
        assert(spans_of(parts@) =~= seq![]);
    }
    while byte_len(left) > 0
        invariant
            char_spans(bytes_of(payload)) == spans_of(parts@) + char_spans(bytes_of(left)),
        decreases bytes_of(left).len(),
    {
        let n: usize = byte_len(left);
        let ghost bytes = bytes_of(left);
        proof {
            reveal(bytes_of);
            encode_utf8_valid_utf8(left@);
            is_char_boundary_start_end_of_seq(bytes);
        }
        let mut at: usize = 1;
        while at < n && !left.is_char_boundary(at)
            invariant
                bytes == left.spec_bytes(),
                n == bytes.len(),
                1 <= at <= n,
                forall|k: int| 0 < k < at ==> !is_char_boundary(bytes, k),
            decreases n - at,
        {
            at += 1;
        }
        proof {
            first_char_ends(bytes, at as int);
        }
        let (first, tail) = left.split_at(at);
        proof {
            reveal(char_spans);
            reveal(bytes_of);
            let before = spans_of(parts@);
            assert(bytes_of(first) == take_first_scalar(bytes));
            assert(bytes_of(tail) == pop_first_scalar(bytes));
            assert(spans_of(parts@.push(first)) =~= before + seq![take_first_scalar(bytes)]);
            assert(before + (seq![take_first_scalar(bytes)] + char_spans(bytes_of(tail)))
                =~= (before + seq![take_first_scalar(bytes)]) + char_spans(bytes_of(tail)));
        }
        parts.push(first);
        left = tail;
    }
    proof {
        reveal(char_spans);
        assert(spans_of(parts@) + char_spans(bytes_of(left)) =~= spans_of(parts@));
    }
    parts
}

/// The number that the digits of `text` denote, where a `usize` holds it.
pub(crate) fn to_count(text: &str) -> (count: Option<usize>)
    requires
        all_digits(bytes_of(text)),
    ensures
        count.is_some() == (decimal(bytes_of(text)) <= usize::MAX),
        count matches Some(n) ==> n == decimal(bytes_of(text)),
{
    proof {
        reveal(bytes_of);
    }
    let bytes = text.as_bytes();
    let mut total: usize = 0;
    let mut i: usize = 0;
    while i < bytes.len()
        invariant
            bytes@ == bytes_of(text),
            i <= bytes.len(),
            total == decimal(bytes@.take(i as int)),
            all_digits(bytes@),
        decreases bytes.len() - i,
    {
        let digit: usize = (bytes[i] - 0x30) as usize;
        proof {
            assert(bytes@.take(i + 1).drop_last() =~= bytes@.take(i as int));
            assert(bytes@.take(i + 1).last() == bytes@[i as int]);
            decimal_prefix(bytes@, i + 1);
        }
        if total > (usize::MAX - digit) / 10 {
            return None;
        }
        total = total * 10 + digit;
        i += 1;
    }
    proof {
        assert(bytes@.take(i as int) =~= bytes@);
    }
    Some(total)
}

/// `nom::bytes::complete::tag` on string input: when the bytes of `lit`
/// open the input, the input is split behind them and the rest is handed
/// back; otherwise nothing is consumed and the match fails.
#[verifier::external_body]
pub(crate) fn tag<'a>(lit: &str, input: &'a str) -> (rest: Option<&'a str>)
    ensures
        rest.is_some() == starts_with(bytes_of(input), bytes_of(lit)),
        rest matches Some(r) ==> bytes_of(r) == bytes_of(input).skip(
            bytes_of(lit).len() as int,
        ),
{
    match nom::bytes::complete::tag::<&str, &str, nom::error::Error<&str>>(lit)(input) {
        Ok((rest, _)) => Some(rest),
        Err(_) => None,
    }
}

/// `nom::character::complete::digit1` on string input: the longest run of
/// ASCII digits that opens the input is split off, with the rest; an empty
/// run is a failure.
#[verifier::external_body]
pub(crate) fn digit1<'a>(input: &'a str) -> (res: Option<(&'a str, &'a str)>)
    ensures
        res.is_some() == (digit_run(bytes_of(input)) > 0),
        res matches Some((rest, digits)) ==> {
            &&& bytes_of(digits) == bytes_of(input).take(
                digit_run(bytes_of(input)) as int,
            )
            &&& bytes_of(rest) == bytes_of(input).skip(digit_run(bytes_of(input)) as int)
        },
{
    match nom::character::complete::digit1::<&str, nom::error::Error<&str>>(input) {
        Ok((rest, digits)) => Some((rest, digits)),
        Err(_) => None,
    }
}

/// `nom::character::complete::alphanumeric1` on string input: the longest
/// run of ASCII letters and digits that opens the input is split off, with
/// the rest; an empty run is a failure.
#[verifier::external_body]
pub(crate) fn alphanumeric1<'a>(input: &'a str) -> (res: Option<(&'a str, &'a str)>)
    ensures
        res.is_some() == (alphanumeric_run(bytes_of(input)) > 0),
        res matches Some((rest, name)) ==> {
            &&& bytes_of(name) == bytes_of(input).take(
                alphanumeric_run(bytes_of(input)) as int,
            )
            &&& bytes_of(rest) == bytes_of(input).skip(
                alphanumeric_run(bytes_of(input)) as int,
            )
        },
{
    match nom::character::complete::alphanumeric1::<&str, nom::error::Error<&str>>(input) {
        Ok((rest, name)) => Some((rest, name)),
        Err(_) => None,
    }
}

} // verus!
