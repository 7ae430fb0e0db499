use crate::grammar::{
    behind, closing, container, element_progress, elements_progress, fits, header_bound,
    integer_text, miss, opening_bound, payload_fits, plain, sign_len, spec_any, spec_array,
    spec_body, spec_bool, spec_double, spec_element, spec_elements, spec_eof, spec_header, spec_int,
    spec_null, spec_object, spec_opening, spec_pair, spec_string, string_progress, well_formed,
    well_formed_rows, Miss, Value,
};
use crate::lex::{
    all_digits, alphanumeric_run_bound, alphanumeric_run_letters, char_spans, decimal, digit_run,
    digit_run_bound, digit_run_digits, digit_run_of, is_digit, one, starts_with_one,
    starts_with_two, two,
};
use crate::util::{ErrorKind, Rule};
use vstd::prelude::*;
use vstd::utf8::*;

verus! {

/// The integer form keeps the number as written: `i:<n>;` decodes to the
/// text `<n>`, whatever follows the semicolon, so that writing the decoded
/// text between `i:` and `;` gives the input back.
pub proof fn integer_text_is_kept(text: Seq<u8>, rest: Seq<u8>)
    requires
        integer_text(text),
    ensures
        spec_int(two('i', ':') + text + one(';') + rest) == Ok::<(Value, nat), Miss>(
            (Value::Integer(text), text.len() + 3),
        ),
        spec_any(two('i', ':') + text + one(';') + rest) == spec_int(
            two('i', ':') + text + one(';') + rest,
        ),
{
    reveal(spec_int);
    let s = two('i', ':') + text + one(';') + rest;
    let body = s.skip(2);
    let sign = sign_len(text);
    let digits = text.skip(sign as int);
    assert(body =~= text + one(';') + rest);
    assert(sign_len(body) == sign);
    assert(body.skip(sign as int) =~= digits + (one(';') + rest));
    digit_run_of(digits, one(';') + rest);
    assert(body.skip((sign + digits.len()) as int) =~= one(';') + rest);
    starts_with_one(one(';') + rest, ';');
    starts_with_two(s, 'i', ':');
    assert(body.take((sign + digits.len()) as int) =~= text);
}

/// What the integer form decodes is what the input holds between `i:` and
/// `;`, byte for byte, and it is a number as written.
pub proof fn integer_is_input_text(s: Seq<u8>)
    ensures
        spec_int(s) matches Ok((value, used)) ==> {
            &&& value matches Value::Integer(text)
            &&& integer_text(text)
            &&& used <= s.len()
            &&& s.take(used as int) == two('i', ':') + text + one(';')
        },
{
    reveal(spec_int);
    if let Ok((value, used)) = spec_int(s) {
        let body = s.skip(2);
        let sign = sign_len(body);
        let run = digit_run(body.skip(sign as int));
        let text = body.take((sign + run) as int);
        digit_run_bound(body.skip(sign as int));
        digit_run_digits(body.skip(sign as int));
        starts_with_two(s, 'i', ':');
        starts_with_one(body.skip((sign + run) as int), ';');
        assert(sign_len(text) == sign);
        assert(text.skip(sign as int) =~= body.skip(sign as int).take(run as int));
        assert(s.take(used as int) =~= two('i', ':') + text + one(';'));
    }
}

/// A header that is written out is recognized: `<tag><digits><open>` in
/// front of anything yields the digits, where `open` begins with no digit.
pub proof fn header_is_read(
    tag: Seq<u8>,
    digits: Seq<u8>,
    open: Seq<u8>,
    rest: Seq<u8>,
    rule: Rule,
)
    requires
        digits.len() > 0,
        all_digits(digits),
        open.len() > 0,
        !is_digit(open[0]),
    ensures
        spec_header(tag + digits + open + rest, tag, open, rule) == Ok::<(Seq<u8>, nat), Miss>(
            (digits, tag.len() + digits.len() + open.len()),
        ),
{
    reveal(spec_header);
    let s = tag + digits + open + rest;
    assert(s.take(tag.len() as int) =~= tag);
    assert(s.skip(tag.len() as int) =~= digits + (open + rest));
    digit_run_of(digits, open + rest);
    assert(s.skip((tag.len() + digits.len()) as int) =~= open + rest);
    assert((open + rest).take(open.len() as int) =~= open);
    assert(s.subrange(tag.len() as int, (tag.len() + digits.len()) as int) =~= digits);
}

/// The spans of a payload are its characters and nothing else: put end
/// to end they are the payload, byte for byte.
pub proof fn char_spans_cover(payload: Seq<u8>)
    requires
        valid_utf8(payload),
    ensures
        char_spans(payload).flatten() == payload,
        char_spans(payload).len() == decode_utf8(payload).len(),
    decreases payload.len(),
{
    reveal(char_spans);
    if payload.len() > 0 {
        let first = take_first_scalar(payload);
        let tail = pop_first_scalar(payload);
        assert(0 < length_of_first_scalar(payload) <= payload.len());
        char_spans_cover(tail);
        assert(char_spans(payload).drop_first() =~= char_spans(tail));
        assert(first + tail =~= payload);
    }
}

/// The declared length of a string decides alone. Where `s:<N>:"` is
/// followed by a payload of exactly `N` bytes and `";`, the string is
/// recognized and holds the characters of that payload, whatever bytes
/// are in it. Where `N` is another number, and the two bytes `N` places
/// behind the opening quote are not `";` by chance, the input is refused
/// for its length.
pub proof fn string_length_decides(digits: Seq<u8>, payload: Seq<u8>, rest: Seq<u8>)
    requires
        digits.len() > 0,
        all_digits(digits),
    ensures
        decimal(digits) == payload.len() ==> spec_string(
            two('s', ':') + digits + two(':', '"') + payload + two('"', ';') + rest,
        ) == Ok::<(Value, nat), Miss>(
            (Value::String(char_spans(payload)), digits.len() + payload.len() + 6),
        ),
        decimal(digits) != payload.len() && !payload_fits(
            payload + two('"', ';') + rest,
            decimal(digits),
        ) ==> spec_string(two('s', ':') + digits + two(':', '"') + payload + two('"', ';') + rest)
            == Err::<(Value, nat), Miss>(
            miss(ErrorKind::LengthMismatch, Rule::String, digits.len() + 4),
        ),
{
    reveal(spec_string);
    let s = two('s', ':') + digits + two(':', '"') + payload + two('"', ';') + rest;
    let head = digits.len() + 4;
    assert(s =~= two('s', ':') + digits + two(':', '"') + (payload + two('"', ';') + rest));
    header_is_read(
        two('s', ':'),
        digits,
        two(':', '"'),
        payload + two('"', ';') + rest,
        Rule::String,
    );
    assert(s.skip(head as int) =~= payload + two('"', ';') + rest);
    if decimal(digits) == payload.len() {
        assert(s.subrange(head as int, (head + payload.len()) as int) =~= payload);
    }
}

/// Does `body` hold exactly `actual` elements in front of a closing
/// brace?
pub open spec fn holds_elements(body: Seq<u8>, actual: nat, keyed: bool) -> bool {
    spec_elements(body, actual, keyed) matches Ok((_, used)) && closing(behind(body, used))
        is None
}

/// Where a run of elements is recognized, every shorter run is, and an
/// element follows it.
pub proof fn fewer_elements(s: Seq<u8>, count: nat, fewer: nat, keyed: bool)
    requires
        fewer < count,
        spec_elements(s, count, keyed) is Ok,
    ensures
        spec_elements(s, fewer, keyed) matches Ok((_, used)) && closing(behind(s, used))
            == Some(ErrorKind::LengthMismatch),
    decreases fewer,
{
    if fewer == 0 {
        assert(s.skip(0) =~= s);
    } else {
        element_progress(s, keyed);
        let first = if keyed {
            spec_pair(s)
        } else {
            spec_element(s)
        };
        let step = first->Ok_0.1;
        let tail = s.skip(step as int);
        fewer_elements(tail, (count - 1) as nat, (fewer - 1) as nat, keyed);
        let more = spec_elements(tail, (fewer - 1) as nat, keyed)->Ok_0.1;
        elements_progress(tail, (fewer - 1) as nat, keyed);
        assert(tail.skip(more as int) =~= s.skip((step + more) as int));
    }
}

/// Where a closing brace follows a run of elements, a longer run is
/// refused for its length.
pub proof fn more_elements(s: Seq<u8>, count: nat, more: nat, keyed: bool)
    requires
        count < more,
        holds_elements(s, count, keyed),
    ensures
        spec_elements(s, more, keyed) == Err::<(Seq<Value>, nat), Miss>(
            miss(
                ErrorKind::LengthMismatch,
                container(keyed),
                spec_elements(s, count, keyed)->Ok_0.1,
            ),
        ),
    decreases count,
{
    if count == 0 {
        assert(s.skip(0) =~= s);
    } else {
        element_progress(s, keyed);
        let first = if keyed {
            spec_pair(s)
        } else {
            spec_element(s)
        };
        let step = first->Ok_0.1;
        let tail = s.skip(step as int);
        let used = spec_elements(tail, (count - 1) as nat, keyed)->Ok_0.1;
        elements_progress(tail, (count - 1) as nat, keyed);
        assert(tail.skip(used as int) =~= s.skip((step + used) as int));
        more_elements(tail, (count - 1) as nat, (more - 1) as nat, keyed);
    }
}

/// The declared count of a container decides alone. Where exactly
/// `actual` elements stand in front of the closing brace, the body is
/// recognized when `actual` was declared, with `actual` values, and is
/// refused for its length when any other number was.
pub proof fn count_decides(body: Seq<u8>, declared: nat, actual: nat, keyed: bool)
    requires
        holds_elements(body, actual, keyed),
    ensures
        declared == actual ==> (spec_body(body, declared, keyed) matches Ok((values, used))
            && values.len() == actual && Ok::<(Seq<Value>, nat), Miss>(
            (values, (used - 1) as nat),
        ) == spec_elements(body, actual, keyed)),
        declared != actual ==> (spec_body(body, declared, keyed) matches Err(m) && m.kind
            == ErrorKind::LengthMismatch && m.rule == container(keyed)),
{
    elements_progress(body, actual, keyed);
    if declared < actual {
        fewer_elements(body, actual, declared, keyed);
    } else if declared > actual {
        more_elements(body, actual, declared, keyed);
    }
}

/// An array with exactly `actual` elements between its braces is
/// recognized when its header declares `actual`, and then holds `actual`
/// values; when the header declares one more, one fewer or any other
/// number, it is refused for its length.
pub proof fn array_count_decides(digits: Seq<u8>, body: Seq<u8>, actual: nat)
    requires
        digits.len() > 0,
        all_digits(digits),
        holds_elements(body, actual, false),
    ensures
        decimal(digits) == actual ==> (spec_array(two('a', ':') + digits + two(':', '{') + body)
            matches Ok((Value::Array(values), _)) && values.len() == actual),
        decimal(digits) != actual ==> (spec_array(two('a', ':') + digits + two(':', '{') + body)
            matches Err(m) && m.kind == ErrorKind::LengthMismatch && m.rule == Rule::Array),
{
    let s = two('a', ':') + digits + two(':', '{') + body;
    header_is_read(two('a', ':'), digits, two(':', '{'), body, Rule::Array);
    assert(s.skip(digits.len() as int + 4) =~= body);
    count_decides(body, decimal(digits), actual, false);
}

/// An object with exactly `actual` entries between its braces: as for
/// arrays, the declared count decides alone.
pub proof fn object_count_decides(opening: Seq<u8>, digits: Seq<u8>, body: Seq<u8>, actual: nat)
    requires
        spec_opening(opening + two('"', ':') + digits + two(':', '{') + body) matches Ok(
            (_, _, used),
        ) && used == opening.len(),
        digits.len() > 0,
        all_digits(digits),
        holds_elements(body, actual, true),
    ensures
        decimal(digits) == actual ==> (spec_object(
            opening + two('"', ':') + digits + two(':', '{') + body,
        ) matches Ok((Value::Object(_, _, values), _)) && values.len() == actual),
        decimal(digits) != actual ==> (spec_object(
            opening + two('"', ':') + digits + two(':', '{') + body,
        ) matches Err(m) && m.kind == ErrorKind::LengthMismatch && m.rule == Rule::Object),
{
    let s = opening + two('"', ':') + digits + two(':', '{') + body;
    let after = two('"', ':') + digits + two(':', '{') + body;
    assert(s.skip(opening.len() as int) =~= after);
    header_is_read(two('"', ':'), digits, two(':', '{'), body, Rule::Object);
    assert(s.skip((opening.len() + digits.len()) as int + 4) =~= body);
    count_decides(body, decimal(digits), actual, true);
}

/// What trying the recognizers one after the other yields, in the order
/// integer, null, double, array, object, string, boolean, end of input:
/// the first success, or nothing where all of them fail.
pub open spec fn first_success(s: Seq<u8>) -> Option<(Value, nat)> {
    if spec_int(s) is Ok {
        Some(spec_int(s)->Ok_0)
    } else if spec_null(s) is Ok {
        Some(spec_null(s)->Ok_0)
    } else if spec_double(s) is Ok {
        Some(spec_double(s)->Ok_0)
    } else if spec_array(s) is Ok {
        Some(spec_array(s)->Ok_0)
    } else if spec_object(s) is Ok {
        Some(spec_object(s)->Ok_0)
    } else if spec_string(s) is Ok {
        Some(spec_string(s)->Ok_0)
    } else if spec_bool(s) is Ok {
        Some(spec_bool(s)->Ok_0)
    } else if spec_eof(s) is Ok {
        Some(spec_eof(s)->Ok_0)
    } else {
        None
    }
}

/// A recognizer that succeeds found its tag at the start of the input.
pub proof fn success_shows_tag(s: Seq<u8>)
    ensures
        spec_int(s) is Ok ==> s.len() > 0 && s[0] == 'i' as u8,
        spec_null(s) is Ok ==> s.len() > 0 && s[0] == 'N' as u8,
        spec_double(s) is Ok ==> s.len() > 0 && s[0] == 'd' as u8,
        spec_array(s) is Ok ==> s.len() > 0 && s[0] == 'a' as u8,
        spec_object(s) is Ok ==> s.len() > 0 && s[0] == 'O' as u8,
        spec_string(s) is Ok ==> s.len() > 0 && s[0] == 's' as u8,
        spec_bool(s) is Ok ==> s.len() > 0 && s[0] == 'b' as u8,
{
    reveal(spec_int);
    reveal(spec_null);
    reveal(spec_double);
    reveal(spec_string);
    reveal(spec_bool);
    reveal(spec_header);
    reveal(spec_opening);
    starts_with_two(s, 'i', ':');
    starts_with_two(s, 'N', ';');
    starts_with_two(s, 'd', ':');
    starts_with_two(s, 'a', ':');
    starts_with_two(s, 'O', ':');
    starts_with_two(s, 's', ':');
    starts_with_two(s, 'b', ':');
}

/// The dispatcher finds what trying the recognizers in their order finds:
/// it succeeds exactly when one of them does, with the result of the first
/// that does.
pub proof fn dispatch_is_first_success(s: Seq<u8>)
    ensures
        match spec_any(s) {
            Ok(found) => first_success(s) == Some(found),
            Err(_) => first_success(s) is None,
        },
{
    success_shows_tag(s);
}

/// The end marker stands for empty input and for nothing else: the
/// dispatcher yields it on empty input, always, and on no other.
pub proof fn end_marker_means_empty(s: Seq<u8>)
    ensures
        s.len() == 0 ==> spec_any(s) == Ok::<(Value, nat), Miss>((Value::Eof, 0)),
        spec_any(s) matches Ok((value, _)) ==> (value is Eof <==> s.len() == 0),
{
    reveal(spec_int);
    reveal(spec_null);
    reveal(spec_double);
    reveal(spec_string);
    reveal(spec_bool);
}

/// Items that are all well formed, and may all stand in a container, are
/// so as a run.
pub proof fn rows_well_formed(items: Seq<Value>, count: nat, keyed: bool)
    requires
        forall|i: int|
            0 <= i < items.len() ==> well_formed(#[trigger] items[i]) && fits(items[i], keyed),
    ensures
        well_formed_rows(items, count, keyed),
    decreases count,
{
    if count > 0 && count <= items.len() {
        rows_well_formed(items, (count - 1) as nat, keyed);
    }
}

/// A string that is recognized is a string value, cut into the characters
/// of its payload.
pub proof fn string_is_well_formed(s: Seq<u8>)
    ensures
        spec_string(s) matches Ok((value, _)) ==> value is String && well_formed(value),
{
    reveal(spec_string);
    reveal(char_spans);
    if let Ok((digits, head)) = spec_header(s, two('s', ':'), two(':', '"'), Rule::String) {
        let payload = s.subrange(head as int, (head + decimal(digits)) as int);
        if valid_utf8(payload) {
            char_spans_cover(payload);
        } else {
            assert(char_spans(payload) =~= seq![]);
            assert(char_spans(payload).flatten() =~= seq![]);
        }
    }
}

/// Whatever the dispatcher decodes is well formed, and on input that is
/// not empty it is neither the end marker nor a key with its value.
pub proof fn decoded_is_well_formed(s: Seq<u8>)
    ensures
        spec_any(s) matches Ok((value, _)) ==> well_formed(value) && (s.len() > 0 ==> plain(value)),
    decreases s.len(), 1nat,
{
    if s.len() > 0 {
        if s[0] == 'i' as u8 {
            integer_is_input_text(s);
        } else if s[0] == 'N' as u8 {
            reveal(spec_null);
        } else if s[0] == 'd' as u8 {
            reveal(spec_double);
            let body = s.skip(2);
            let whole = digit_run(body);
            let after = body.skip(whole as int + 1);
            let frac = digit_run(after);
            digit_run_bound(body);
            digit_run_digits(body);
            digit_run_bound(after);
            digit_run_digits(after);
            if spec_double(s) is Ok {
                assert(body.subrange(whole as int + 1, (whole + 1 + frac) as int) =~= after.take(
                    frac as int,
                ));
            }
        } else if s[0] == 'a' as u8 {
            header_bound(s, two('a', ':'), two(':', '{'), Rule::Array);
            if let Ok((digits, head)) = spec_header(s, two('a', ':'), two(':', '{'), Rule::Array) {
                let body = s.skip(head as int);
                elements_are_well_formed(body, decimal(digits), false);
                if let Ok((values, _)) = spec_elements(body, decimal(digits), false) {
                    rows_well_formed(values, values.len(), false);
                }
            }
        } else if s[0] == 'O' as u8 {
            reveal(spec_opening);
            opening_bound(s);
            header_bound(s, two('O', ':'), two(':', '"'), Rule::Object);
            if let Ok((_, name, at)) = spec_opening(s) {
                let name_at = (at - name.len()) as nat;
                alphanumeric_run_bound(s.skip(name_at as int));
                alphanumeric_run_letters(s.skip(name_at as int));
                header_bound(s.skip(at as int), two('"', ':'), two(':', '{'), Rule::Object);
                if let Ok((digits, more)) = spec_header(
                    s.skip(at as int),
                    two('"', ':'),
                    two(':', '{'),
                    Rule::Object,
                ) {
                    let body = s.skip((at + more) as int);
                    elements_are_well_formed(body, decimal(digits), true);
                    if let Ok((values, _)) = spec_elements(body, decimal(digits), true) {
                        rows_well_formed(values, values.len(), true);
                    }
                }
            }
        } else if s[0] == 's' as u8 {
            string_is_well_formed(s);
        } else if s[0] == 'b' as u8 {
            reveal(spec_bool);
            if spec_bool(s) is Ok {
                if s[2] == '0' as u8 {
                    assert(seq![s[2]] =~= one('0'));
                } else {
                    assert(seq![s[2]] =~= one('1'));
                }
            }
        }
    }
}

/// An element that is recognized is well formed and may stand in its
/// container.
pub proof fn element_is_well_formed(s: Seq<u8>, keyed: bool)
    requires
        s.len() > 0,
    ensures
        (if keyed {
            spec_pair(s)
        } else {
            spec_element(s)
        }) matches Ok((value, _)) ==> well_formed(value) && fits(value, keyed),
    decreases s.len(), 3nat,
{
    string_is_well_formed(s);
    string_progress(s);
    decoded_is_well_formed(s);
    if let Ok((_, used)) = spec_string(s) {
        if used < s.len() {
            decoded_is_well_formed(s.skip(used as int));
        }
    }
}

/// The elements of a run that is recognized are well formed, and each may
/// stand in its container.
pub proof fn elements_are_well_formed(s: Seq<u8>, count: nat, keyed: bool)
    ensures
        spec_elements(s, count, keyed) matches Ok((values, _)) ==> forall|i: int|
            0 <= i < values.len() ==> well_formed(#[trigger] values[i]) && fits(values[i], keyed),
    decreases s.len(), 4nat,
{
    if count > 0 && s.len() > 0 && s[0] != '}' as u8 {
        element_is_well_formed(s, keyed);
        element_progress(s, keyed);
        let first = if keyed {
            spec_pair(s)
        } else {
            spec_element(s)
        };
        if let Ok((value, used)) = first {
            elements_are_well_formed(s.skip(used as int), (count - 1) as nat, keyed);
        }
    }
}

} // verus!
