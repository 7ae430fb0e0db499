use crate::grammar::{
    body_progress, container, element_progress, follow, follow_twice, header_bound, inside, miss,
    opening_bound, payload_fits, shift, sign_len, spec_any, spec_array, spec_body, spec_bool,
    spec_double, spec_element, spec_elements, spec_eof, spec_header, spec_int, spec_null,
    spec_object, spec_opening, spec_pair, spec_string, spec_value, string_progress, value_progress,
    well_formed, Outcome, Outcomes, Value,
};
use crate::laws::{decoded_is_well_formed, end_marker_means_empty};
use crate::lex::{
    alphanumeric1, alphanumeric_run, alphanumeric_run_bound, byte_at, byte_len, bytes_of, decimal,
    digit1, digit_run, digit_run_bound, digit_run_digits, spans_of, split_chars, split_text,
    starts_with_one, starts_with_two, tag, text_one, text_two, to_count, two, CLOSE, QUOTE,
    SEMICOLON,
};
use crate::util::{ErrorKind, ParseError, Rule};
use vstd::prelude::*;
use vstd::string::*;

verus! {

/// The tag `i`.
const TAG_INTEGER: u8 = 0x69;

/// The tag `N`.
const TAG_NULL: u8 = 0x4e;

/// The tag `d`.
const TAG_DOUBLE: u8 = 0x64;

/// The tag `a`.
const TAG_ARRAY: u8 = 0x61;

/// The tag `O`.
const TAG_OBJECT: u8 = 0x4f;

/// The tag `s`.
const TAG_STRING: u8 = 0x73;

/// The tag `b`.
const TAG_BOOL: u8 = 0x62;

/// A decoded value. Every span borrows from the input it was read from.
#[derive(Debug, PartialEq, Eq)]
pub enum Parsed<'a> {
    /// The number as written, sign included.
    Integer(&'a str),
    /// The digits before the decimal point and those behind it.
    Double((&'a str, &'a str)),
    /// The null literal, with its text.
    Null(&'a str),
    /// The declared name length as written, the name, and the entries,
    /// each an `ObjectVal`.
    Object((&'a str, &'a str, Vec<Parsed<'a>>)),
    /// A key with its value, inside an array or an object.
    ObjectVal(Box<(Parsed<'a>, Parsed<'a>)>),
    /// The token `0` or `1`.
    Bool(&'a str),
    /// The elements in input order.
    Array(Vec<Parsed<'a>>),
    /// The payload, one entry for each character.
    String(Vec<&'a str>),
    /// No input was left.
    Eof,
}

/// The values of a list of decoded items.
pub open spec fn views(items: Seq<Parsed<'_>>) -> Seq<Value>
    decreases items, 1nat,
{
    Seq::new(
        items.len(),
        |i: int|
            if 0 <= i < items.len() {
                items[i].view()
            } else {
                Value::Eof
            },
    )
}

impl<'a> View for Parsed<'a> {
    type V = Value;

    open spec fn view(&self) -> Value
        decreases self, 0nat,
    {
        match self {
            Parsed::Integer(text) => Value::Integer(bytes_of(text)),
            Parsed::Double((whole, frac)) => Value::Double(bytes_of(whole), bytes_of(frac)),
            Parsed::Null(text) => Value::Null(bytes_of(text)),
            Parsed::Object((len, name, items)) => Value::Object(
                bytes_of(len),
                bytes_of(name),
                views(items@),
            ),
            Parsed::ObjectVal(pair) => Value::ObjectVal(
                Box::new(pair.0.view()),
                Box::new(pair.1.view()),
            ),
            Parsed::Bool(token) => Value::Bool(bytes_of(token)),
            Parsed::Array(items) => Value::Array(views(items@)),
            Parsed::String(chars) => Value::String(spans_of(chars@)),
            Parsed::Eof => Value::Eof,
        }
    }
}

/// The failure of `rule` for `kind` at the place where `left` begins in
/// `input`.
pub(crate) fn stopped(input: &str, left: &str, kind: ErrorKind, rule: Rule) -> (e: ParseError)
    requires
        bytes_of(left).len() <= bytes_of(input).len(),
    ensures
        e@ == miss(kind, rule, (bytes_of(input).len() - bytes_of(left).len()) as nat),
{
    ParseError { kind, rule, at: byte_len(input) - byte_len(left) }
}

/// The failure `e`, which arose in `left`, as seen from the start of
/// `input`.
pub(crate) fn deeper(input: &str, left: &str, e: ParseError) -> (moved: ParseError)
    requires
        bytes_of(left).len() <= bytes_of(input).len(),
        e.at <= bytes_of(left).len(),
    ensures
        moved@ == shift(e@, (bytes_of(input).len() - bytes_of(left).len()) as nat),
{
    ParseError { kind: e.kind, rule: e.rule, at: e.at + (byte_len(input) - byte_len(left)) }
}

/// The outcome of a recognizer on `input`, as its callers see it.
pub type Decoded<'a> = Result<(&'a str, Parsed<'a>), ParseError>;

/// Does `res` say of `input` what the grammar's `expected` says of its
/// bytes: the same value with the rest of the input behind it, or the same
/// failure?
pub open spec fn decodes(input: &str, res: Decoded<'_>, expected: Outcome) -> bool {
    match (res, expected) {
        (Ok((rest, value)), Ok((v, used))) => {
            &&& value@ == v
            &&& used <= bytes_of(input).len()
            &&& bytes_of(rest) == bytes_of(input).skip(used as int)
        },
        (Err(e), Err(m)) => e@ == m,
        _ => false,
    }
}

/// Recognizes `i:<digits>;`, with an optional sign before the digits, and
/// keeps the text of the number as written. The syntax is mismatched where
/// `i:` or `;` is absent, the scalar malformed where no digit is there.
pub fn parse_int<'a>(input: &'a str) -> (res: Decoded<'a>)
    ensures
        decodes(input, res, spec_int(bytes_of(input))),
{
    proof {
        reveal(spec_int);
        reveal_strlit("i:");
        reveal_strlit("-");
        reveal_strlit("+");
        reveal_strlit(";");
        text_two("i:", 'i', ':');
        text_one("-", '-');
        text_one("+", '+');
        text_one(";", ';');
    }
    let body = match tag("i:", input) {
        Some(body) => body,
        None => { return Err(stopped(input, input, ErrorKind::SyntaxMismatch, Rule::Integer)); },
    };
    let unsigned = match tag("-", body) {
        Some(rest) => rest,
        None => match tag("+", body) {
            Some(rest) => rest,
            None => body,
        },
    };
    let ghost sign = sign_len(bytes_of(body));
    let ghost run = digit_run(bytes_of(unsigned));
    proof {
        starts_with_one(bytes_of(body), '-');
        starts_with_one(bytes_of(body), '+');
        assert(bytes_of(unsigned) =~= bytes_of(body).skip(sign as int));
    }
    let (after, _) = match digit1(unsigned) {
        Some(found) => found,
        None => {
            return Err(stopped(input, unsigned, ErrorKind::MalformedScalar, Rule::Integer));
        },
    };
    proof {
        digit_run_bound(bytes_of(unsigned));
        assert(bytes_of(after) =~= bytes_of(body).skip((sign + run) as int));
        assert(bytes_of(after).len() == bytes_of(body).len() - sign - run);
    }
    let rest = match tag(";", after) {
        Some(rest) => rest,
        None => {
            return Err(stopped(input, after, ErrorKind::SyntaxMismatch, Rule::Integer));
        },
    };
    let width: usize = byte_len(body) - byte_len(after);
    proof {
        starts_with_one(bytes_of(after), ';');
        assert(bytes_of(body)[width as int] == bytes_of(after)[0]);
        assert(bytes_of(rest) =~= bytes_of(input).skip((2 + sign + run + 1) as int));
    }
    let (text, _) = split_text(body, width);
    Ok((rest, Parsed::Integer(text)))
}

/// Recognizes `N;`. Anything else mismatches the syntax.
pub fn parse_null<'a>(input: &'a str) -> (res: Decoded<'a>)
    ensures
        decodes(input, res, spec_null(bytes_of(input))),
{
    proof {
        reveal(spec_null);
        reveal_strlit("N;");
        text_two("N;", 'N', ';');
    }
    match tag("N;", input) {
        Some(rest) => Ok((rest, Parsed::Null("N;"))),
        None => Err(stopped(input, input, ErrorKind::SyntaxMismatch, Rule::Null)),
    }
}

/// Recognizes `b:0;` and `b:1;`, and keeps the token. The syntax is
/// mismatched where `b:` or `;` is absent, the scalar malformed where the
/// token is neither `0` nor `1`.
pub fn parse_bool<'a>(input: &'a str) -> (res: Decoded<'a>)
    ensures
        decodes(input, res, spec_bool(bytes_of(input))),
{
    proof {
        reveal(spec_bool);
        reveal_strlit("b:");
        reveal_strlit("0");
        reveal_strlit("1");
        reveal_strlit(";");
        text_two("b:", 'b', ':');
        text_one("0", '0');
        text_one("1", '1');
        text_one(";", ';');
    }
    let body = match tag("b:", input) {
        Some(body) => body,
        None => { return Err(stopped(input, input, ErrorKind::SyntaxMismatch, Rule::Bool)); },
    };
    proof {
        starts_with_one(bytes_of(body), '0');
        starts_with_one(bytes_of(body), '1');
    }
    let (after, token) = match tag("0", body) {
        Some(after) => (after, "0"),
        None => match tag("1", body) {
            Some(after) => (after, "1"),
            None => {
                return Err(stopped(input, body, ErrorKind::MalformedScalar, Rule::Bool));
            },
        },
    };
    proof {
        assert(bytes_of(after) =~= bytes_of(input).skip(3));
        assert(bytes_of(token) =~= seq![bytes_of(input)[2]]);
    }
    match tag(";", after) {
        Some(rest) => {
            proof {
                assert(bytes_of(rest) =~= bytes_of(input).skip(4));
            }
            Ok((rest, Parsed::Bool(token)))
        },
        None => Err(stopped(input, after, ErrorKind::SyntaxMismatch, Rule::Bool)),
    }
}

/// Recognizes `d:<digits>.<digits>;`, and keeps the digits on both sides
/// of the point as written. The syntax is mismatched where `d:` or `;` is
/// absent, the scalar malformed where the point or the digits on one of
/// its sides are.
pub fn parse_double<'a>(input: &'a str) -> (res: Decoded<'a>)
    ensures
        decodes(input, res, spec_double(bytes_of(input))),
{
    proof {
        reveal(spec_double);
        reveal_strlit("d:");
        reveal_strlit(".");
        reveal_strlit(";");
        text_two("d:", 'd', ':');
        text_one(".", '.');
        text_one(";", ';');
    }
    let body = match tag("d:", input) {
        Some(body) => body,
        None => { return Err(stopped(input, input, ErrorKind::SyntaxMismatch, Rule::Double)); },
    };
    let ghost b = bytes_of(body);
    let ghost whole_run = digit_run(b);
    let ghost frac_run = digit_run(b.skip(whole_run as int + 1));
    let (after_whole, whole) = match digit1(body) {
        Some(found) => found,
        None => { return Err(stopped(input, body, ErrorKind::MalformedScalar, Rule::Double)); },
    };
    proof {
        digit_run_bound(b);
        starts_with_one(bytes_of(after_whole), '.');
    }
    let after_point = match tag(".", after_whole) {
        Some(rest) => rest,
        None => {
            return Err(stopped(input, after_whole, ErrorKind::MalformedScalar, Rule::Double));
        },
    };
    proof {
        assert(bytes_of(after_point) =~= b.skip(whole_run as int + 1));
        digit_run_bound(bytes_of(after_point));
    }
    let (after_frac, frac) = match digit1(after_point) {
        Some(found) => found,
        None => {
            return Err(stopped(input, after_point, ErrorKind::MalformedScalar, Rule::Double));
        },
    };
    proof {
        assert(bytes_of(after_frac) =~= b.skip((whole_run + 1 + frac_run) as int));
        assert(bytes_of(frac) =~= b.subrange(
            whole_run as int + 1,
            (whole_run + 1 + frac_run) as int,
        ));
    }
    match tag(";", after_frac) {
        Some(rest) => {
            proof {
                assert(bytes_of(rest) =~= bytes_of(input).skip(
                    (2 + whole_run + 1 + frac_run + 1) as int,
                ));
            }
            Ok((rest, Parsed::Double((whole, frac))))
        },
        None => Err(stopped(input, after_frac, ErrorKind::SyntaxMismatch, Rule::Double)),
    }
}

/// Recognizes the end of the input. Input that is not empty mismatches
/// the syntax.
pub fn parse_eof<'a>(input: &'a str) -> (res: Decoded<'a>)
    ensures
        decodes(input, res, spec_eof(bytes_of(input))),
{
    if byte_len(input) == 0 {
        proof {
            assert(bytes_of(input).skip(0) =~= bytes_of(input));
        }
        Ok((input, Parsed::Eof))
    } else {
        Err(stopped(input, input, ErrorKind::SyntaxMismatch, Rule::Eof))
    }
}

/// A header as read: what follows it, the digits of its number, and the
/// number where a `usize` holds it.
struct Head<'a> {
    rest: &'a str,
    digits: &'a str,
    count: Option<usize>,
}

/// Recognizes `<tag><digits><open>`.
fn parse_header<'a>(input: &'a str, tag_text: &str, open_text: &str, rule: Rule) -> (res: Result<
    Head<'a>,
    ParseError,
>)
    ensures
        match (
            res,
            spec_header(bytes_of(input), bytes_of(tag_text), bytes_of(open_text), rule),
        ) {
            (Ok(head), Ok((d, used))) => {
                &&& bytes_of(head.digits) == d
                &&& used <= bytes_of(input).len()
                &&& bytes_of(head.rest) == bytes_of(input).skip(used as int)
                &&& head.count.is_some() == (decimal(d) <= usize::MAX)
                &&& head.count matches Some(n) ==> n == decimal(d)
            },
            (Err(e), Err(m)) => e@ == m,
            _ => false,
        },
{
    proof {
        reveal(spec_header);
    }
    let ghost s = bytes_of(input);
    let ghost t = bytes_of(tag_text).len();
    let ghost run = digit_run(s.skip(t as int));
    let after_tag = match tag(tag_text, input) {
        Some(rest) => rest,
        None => { return Err(stopped(input, input, ErrorKind::SyntaxMismatch, rule)); },
    };
    let (after_digits, digits) = match digit1(after_tag) {
        Some(found) => found,
        None => { return Err(stopped(input, after_tag, ErrorKind::MalformedScalar, rule)); },
    };
    proof {
        digit_run_bound(s.skip(t as int));
        digit_run_digits(s.skip(t as int));
        assert(bytes_of(digits) =~= s.subrange(t as int, (t + run) as int));
        assert(bytes_of(after_digits) =~= s.skip((t + run) as int));
    }
    match tag(open_text, after_digits) {
        Some(rest) => {
            proof {
                assert(bytes_of(rest) =~= s.skip((t + run + bytes_of(open_text).len()) as int));
            }
            Ok(Head { rest, digits, count: to_count(digits) })
        },
        None => Err(stopped(input, after_digits, ErrorKind::SyntaxMismatch, rule)),
    }
}

/// Takes `declared` bytes of payload from the front of `body`, and the
/// `";` that must follow them.
fn take_payload<'a>(body: &'a str, declared: usize) -> (res: Option<(&'a str, &'a str)>)
    ensures
        res.is_some() == payload_fits(bytes_of(body), declared as nat),
        res matches Some((rest, payload)) ==> {
            &&& bytes_of(payload) == bytes_of(body).take(declared as int)
            &&& bytes_of(rest) == bytes_of(body).skip(declared + 2)
        },
{
    let room: usize = byte_len(body);
    if room < 2 || declared > room - 2 {
        return None;
    }
    if byte_at(body, declared) != QUOTE || byte_at(body, declared + 1) != SEMICOLON {
        return None;
    }
    let (payload, after) = split_text(body, declared);
    proof {
        reveal_strlit("\";");
        text_two("\";", '"', ';');
        starts_with_two(bytes_of(after), '"', ';');
        assert(bytes_of(payload) =~= bytes_of(body).take(declared as int));
    }
    match tag("\";", after) {
        Some(rest) => {
            proof {
                assert(bytes_of(rest) =~= bytes_of(body).skip(declared + 2));
            }
            Some((rest, payload))
        },
        None => None,
    }
}

/// Recognizes `s:<N>:"<payload>";` where the payload is exactly `N`
/// bytes long, whatever bytes it holds, and splits it into its characters.
/// The length is mismatched unless `";` stands exactly `N` bytes behind
/// the opening quote; the payload is never searched for a quote.
pub fn parse_string<'a>(input: &'a str) -> (res: Decoded<'a>)
    ensures
        decodes(input, res, spec_string(bytes_of(input))),
{
    proof {
        reveal(spec_string);
        reveal_strlit("s:");
        reveal_strlit(":\"");
        text_two("s:", 's', ':');
        text_two(":\"", ':', '"');
        header_bound(bytes_of(input), two('s', ':'), two(':', '"'), Rule::String);
    }
    let ghost s = bytes_of(input);
    let found = match parse_header(input, "s:", ":\"", Rule::String) {
        Ok(found) => found,
        Err(e) => { return Err(e); },
    };
    let body = found.rest;
    let ghost head = s.len() - bytes_of(body).len();
    let room: usize = byte_len(body);
    let declared: usize = match found.count {
        Some(n) if n <= room => n,
        _ => { return Err(stopped(input, body, ErrorKind::LengthMismatch, Rule::String)); },
    };
    match take_payload(body, declared) {
        Some((rest, payload)) => {
            proof {
                assert(bytes_of(payload) =~= s.subrange(head as int, (head + declared) as int));
                assert(bytes_of(rest) =~= s.skip((head + declared + 2) as int));
            }
            Ok((rest, Parsed::String(split_chars(payload))))
        },
        None => Err(stopped(input, body, ErrorKind::LengthMismatch, Rule::String)),
    }
}

/// The outcome of a run of elements on `input`, as its callers see it.
pub type DecodedAll<'a> = Result<(&'a str, Vec<Parsed<'a>>), ParseError>;

/// As `decodes`, for a run of elements.
pub open spec fn decodes_all(input: &str, res: DecodedAll<'_>, expected: Outcomes) -> bool {
    match (res, expected) {
        (Ok((rest, items)), Ok((values, used))) => {
            &&& views(items@) == values
            &&& used <= bytes_of(input).len()
            &&& bytes_of(rest) == bytes_of(input).skip(used as int)
        },
        (Err(e), Err(m)) => e@ == m,
        _ => false,
    }
}

/// Decodes one value of any form, chosen by the tag that opens `input`,
/// and hands back the rest of the input with it. Empty input is no
/// failure: it yields the end marker, and nothing else does. A failure
/// names the rule that could not go on and the byte at which it stopped,
/// counted from the start of `input`.
pub fn parse_any<'a>(input: &'a str) -> (res: Decoded<'a>)
    ensures
        decodes(input, res, spec_any(bytes_of(input))),
        bytes_of(input).len() == 0 ==> res is Ok,
        res matches Ok((_, value)) ==> (value is Eof <==> bytes_of(input).len() == 0),
        res matches Ok((_, value)) ==> well_formed(value@),
        res matches Err(e) ==> e.at <= bytes_of(input).len(),
    decreases bytes_of(input).len(), 1nat,
{
    proof {
        end_marker_means_empty(bytes_of(input));
        decoded_is_well_formed(bytes_of(input));
        value_progress(bytes_of(input));
    }
    if byte_len(input) == 0 {
        return parse_eof(input);
    }
    let first: u8 = byte_at(input, 0);
    if first == TAG_INTEGER {
        parse_int(input)
    } else if first == TAG_NULL {
        parse_null(input)
    } else if first == TAG_DOUBLE {
        parse_double(input)
    } else if first == TAG_ARRAY {
        parse_array(input)
    } else if first == TAG_OBJECT {
        parse_object(input)
    } else if first == TAG_STRING {
        parse_string(input)
    } else if first == TAG_BOOL {
        parse_bool(input)
    } else {
        Err(stopped(input, input, ErrorKind::SyntaxMismatch, Rule::Any))
    }
}

/// Decodes a value inside a container, where the end of the input is a
/// failure.
fn parse_value<'a>(input: &'a str) -> (res: Decoded<'a>)
    ensures
        decodes(input, res, spec_value(bytes_of(input))),
    decreases bytes_of(input).len(), 2nat,
{
    if byte_len(input) == 0 {
        Err(stopped(input, input, ErrorKind::Exhausted, Rule::Any))
    } else {
        parse_any(input)
    }
}

/// Decodes one array element: a string key with its value where both are
/// there, a bare value otherwise.
fn parse_element<'a>(input: &'a str) -> (res: Decoded<'a>)
    ensures
        decodes(input, res, spec_element(bytes_of(input))),
    decreases bytes_of(input).len(), 3nat,
{
    proof {
        string_progress(bytes_of(input));
    }
    match parse_string(input) {
        Ok((after_key, key)) => match parse_value(after_key) {
            Ok((rest, value)) => {
                let pair = Parsed::ObjectVal(Box::new((key, value)));
                proof {
                    let used = bytes_of(input).len() - bytes_of(after_key).len();
                    let more = bytes_of(after_key).len() - bytes_of(rest).len();
                    assert(bytes_of(rest) =~= bytes_of(input).skip(used + more));
                }
                Ok((rest, pair))
            },
            Err(_) => Ok((after_key, key)),
        },
        Err(_) => parse_value(input),
    }
}

/// Decodes one object entry: a string key, then its value.
fn parse_pair<'a>(input: &'a str) -> (res: Decoded<'a>)
    ensures
        decodes(input, res, spec_pair(bytes_of(input))),
    decreases bytes_of(input).len(), 3nat,
{
    proof {
        string_progress(bytes_of(input));
    }
    let (after_key, key) = match parse_string(input) {
        Ok(found) => found,
        Err(e) => { return Err(e); },
    };
    match parse_value(after_key) {
        Ok((rest, value)) => {
            let pair = Parsed::ObjectVal(Box::new((key, value)));
            proof {
                let used = bytes_of(input).len() - bytes_of(after_key).len();
                let more = bytes_of(after_key).len() - bytes_of(rest).len();
                assert(bytes_of(rest) =~= bytes_of(input).skip(used + more));
            }
            Ok((rest, pair))
        },
        Err(e) => {
            proof {
                value_progress(bytes_of(after_key));
            }
            Err(deeper(input, after_key, e))
        },
    }
}

/// Are more elements wanted after `done` of them, where `declared` were
/// declared? No count is a count too large to hold.
fn wanted(declared: Option<usize>, done: usize) -> (more: bool)
    ensures
        more == match declared {
            Some(n) => done < n,
            None => true,
        },
{
    match declared {
        Some(n) => done < n,
        None => true,
    }
}

/// Decodes the inside of a container up to its closing brace: `declared`
/// elements, entries where `keyed` is set. No count stands for a count too
/// large to hold, which the input runs out under.
fn parse_body<'a>(
    input: &'a str,
    declared: Option<usize>,
    keyed: bool,
    Ghost(number): Ghost<nat>,
) -> (res: DecodedAll<'a>)
    requires
        match declared {
            Some(n) => number == n,
            None => number > usize::MAX,
        },
    ensures
        decodes_all(input, res, spec_body(bytes_of(input), number, keyed)),
    decreases bytes_of(input).len(), 5nat,
{
    let ghost s = bytes_of(input);
    let room: usize = byte_len(input);
    let rule = if keyed {
        Rule::Object
    } else {
        Rule::Array
    };
    let mut items: Vec<Parsed<'a>> = Vec::new();
    let mut left: &'a str = input;
    let mut done: usize = 0;
    let ghost mut used: nat = 0;
    proof {
        assert(s.skip(0) =~= s);
        assert(views(items@) =~= seq![]);
        if let Ok((values, _)) = spec_elements(s, number, keyed) {
            assert(Seq::<Value>::empty() + values =~= values);
        }
    }
    while wanted(declared, done)
        invariant
            s == bytes_of(input),
            room == s.len(),
            rule == container(keyed),
            match declared {
                Some(n) => number == n,
                None => number > usize::MAX,
            },
            done <= number,
            done <= used <= s.len(),
            bytes_of(left) == s.skip(used as int),
            spec_elements(s, number, keyed) == follow(
                views(items@),
                used,
                spec_elements(bytes_of(left), (number - done) as nat, keyed),
            ),
        decreases s.len() - used,
    {
        if byte_len(left) == 0 {
            return Err(stopped(input, left, ErrorKind::Exhausted, rule));
        }
        if byte_at(left, 0) == CLOSE {
            return Err(stopped(input, left, ErrorKind::LengthMismatch, rule));
        }
        proof {
            element_progress(bytes_of(left), keyed);
        }
        let found = if keyed {
            parse_pair(left)
        } else {
            parse_element(left)
        };
        let (rest, item) = match found {
            Ok(found) => found,
            Err(e) => { return Err(deeper(input, left, e)); },
        };
        proof {
            let step = (bytes_of(left).len() - bytes_of(rest).len()) as nat;
            let tail = spec_elements(bytes_of(rest), (number - done - 1) as nat, keyed);
            follow_twice(views(items@), used, seq![item@], step, tail);
            assert(bytes_of(rest) =~= s.skip((used + step) as int));
            assert(views(items@.push(item)) =~= views(items@) + seq![item@]);
            used = used + step;
        }
        items.push(item);
        left = rest;
        done += 1;
    }
    proof {
        assert(views(items@) + Seq::<Value>::empty() =~= views(items@));
        reveal_strlit("}");
        text_one("}", '}');
        starts_with_one(bytes_of(left), '}');
    }
    if byte_len(left) == 0 {
        return Err(stopped(input, left, ErrorKind::Exhausted, rule));
    }
    match tag("}", left) {
        Some(rest) => {
            proof {
                assert(bytes_of(rest) =~= s.skip(used as int + 1));
            }
            Ok((rest, items))
        },
        None => Err(stopped(input, left, ErrorKind::LengthMismatch, rule)),
    }
}

/// Recognizes `a:<N>:{...}` with exactly `N` elements between the braces.
/// An element is a string key followed by a value where the input reads
/// so, and a bare value otherwise: a string that a value follows is always
/// taken for its key. The length is mismatched where the closing brace
/// comes before or after the `N`th element, and the input exhausted where
/// it ends before the brace.
pub fn parse_array<'a>(input: &'a str) -> (res: Decoded<'a>)
    ensures
        decodes(input, res, spec_array(bytes_of(input))),
    decreases bytes_of(input).len(), 0nat,
{
    proof {
        reveal_strlit("a:");
        reveal_strlit(":{");
        text_two("a:", 'a', ':');
        text_two(":{", ':', '{');
        header_bound(bytes_of(input), two('a', ':'), two(':', '{'), Rule::Array);
    }
    let found = match parse_header(input, "a:", ":{", Rule::Array) {
        Ok(found) => found,
        Err(e) => { return Err(e); },
    };
    let body = found.rest;
    match parse_body(body, found.count, false, Ghost(decimal(bytes_of(found.digits)))) {
        Ok((rest, items)) => {
            let value = Parsed::Array(items);
            proof {
                let head = bytes_of(input).len() - bytes_of(body).len();
                let used = bytes_of(body).len() - bytes_of(rest).len();
                assert(bytes_of(rest) =~= bytes_of(input).skip(head + used));
                assert(value@ == Value::Array(views(items@)));
            }
            Ok((rest, value))
        },
        Err(e) => {
            proof {
                body_progress(bytes_of(body), decimal(bytes_of(found.digits)), false);
            }
            Err(deeper(input, body, e))
        },
    }
}

/// Recognizes `O:<L>:"<name>` and hands back what follows the name, the
/// digits of `L` and the name.
fn parse_opening<'a>(input: &'a str) -> (res: Result<(&'a str, &'a str, &'a str), ParseError>)
    ensures
        match (res, spec_opening(bytes_of(input))) {
            (Ok((rest, len_digits, name)), Ok((d, n, used))) => {
                &&& bytes_of(len_digits) == d
                &&& bytes_of(name) == n
                &&& used <= bytes_of(input).len()
                &&& bytes_of(rest) == bytes_of(input).skip(used as int)
            },
            (Err(e), Err(m)) => e@ == m,
            _ => false,
        },
{
    let ghost s = bytes_of(input);
    proof {
        reveal(spec_opening);
        reveal_strlit("O:");
        reveal_strlit(":\"");
        text_two("O:", 'O', ':');
        text_two(":\"", ':', '"');
        header_bound(s, two('O', ':'), two(':', '"'), Rule::Object);
    }
    let head = match parse_header(input, "O:", ":\"", Rule::Object) {
        Ok(found) => found,
        Err(e) => { return Err(e); },
    };
    let ghost name_at = s.len() - bytes_of(head.rest).len();
    let ghost run = alphanumeric_run(bytes_of(head.rest));
    let (rest, name) = match alphanumeric1(head.rest) {
        Some(found) => found,
        None => {
            return Err(stopped(input, head.rest, ErrorKind::SyntaxMismatch, Rule::Object));
        },
    };
    proof {
        alphanumeric_run_bound(bytes_of(head.rest));
        assert(bytes_of(name) =~= s.subrange(name_at as int, (name_at + run) as int));
        assert(bytes_of(rest) =~= s.skip((name_at + run) as int));
    }
    let name_len: usize = byte_len(name);
    match head.count {
        Some(n) if n == name_len => Ok((rest, head.digits, name)),
        _ => Err(stopped(input, head.rest, ErrorKind::LengthMismatch, Rule::Object)),
    }
}

/// Recognizes `O:<L>:"<name>":<N>:{...}` with a name of letters and digits
/// that is `L` bytes long and exactly `N` entries between the braces, each
/// a string key followed by a value.
pub fn parse_object<'a>(input: &'a str) -> (res: Decoded<'a>)
    ensures
        decodes(input, res, spec_object(bytes_of(input))),
    decreases bytes_of(input).len(), 0nat,
{
    let ghost s = bytes_of(input);
    let (after_name, len_digits, name) = match parse_opening(input) {
        Ok(found) => found,
        Err(e) => { return Err(e); },
    };
    proof {
        opening_bound(s);
        reveal_strlit("\":");
        reveal_strlit(":{");
        text_two("\":", '"', ':');
        text_two(":{", ':', '{');
        header_bound(bytes_of(after_name), two('"', ':'), two(':', '{'), Rule::Object);
    }
    let found = match parse_header(after_name, "\":", ":{", Rule::Object) {
        Ok(found) => found,
        Err(e) => { return Err(deeper(input, after_name, e)); },
    };
    let body = found.rest;
    let ghost at = s.len() - bytes_of(after_name).len();
    let ghost more = bytes_of(after_name).len() - bytes_of(body).len();
    proof {
        assert(bytes_of(body) =~= s.skip(at + more));
    }
    match parse_body(body, found.count, true, Ghost(decimal(bytes_of(found.digits)))) {
        Ok((rest, items)) => {
            let value = Parsed::Object((len_digits, name, items));
            proof {
                let used = bytes_of(body).len() - bytes_of(rest).len();
                assert(bytes_of(rest) =~= s.skip(at + more + used));
                assert(value@ == Value::Object(bytes_of(len_digits), bytes_of(name), views(items@)));
            }
            Ok((rest, value))
        },
        Err(e) => {
            proof {
                body_progress(bytes_of(body), decimal(bytes_of(found.digits)), true);
            }
            Err(deeper(input, body, e))
        },
    }
}

} // verus!
