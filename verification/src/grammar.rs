use crate::lex::{
    all_digits, alphanumeric_run, alphanumeric_run_bound, char_spans, decimal, digit_run,
    digit_run_bound, digit_run_digits, is_alphanumeric, one, starts_with, starts_with_one,
    starts_with_two, two,
};
use crate::util::{ErrorKind, ParseError, Rule};
use vstd::prelude::*;

verus! {

/// The value tree as a mathematical object: every span is the sequence of
/// bytes it covers in the input.
pub enum Value {
    /// The text between `i:` and `;`, sign included.
    Integer(Seq<u8>),
    /// The digits before and after the decimal point.
    Double(Seq<u8>, Seq<u8>),
    /// The text of the null literal.
    Null(Seq<u8>),
    /// The declared name length as written, the name, and the entries.
    Object(Seq<u8>, Seq<u8>, Seq<Value>),
    /// A key with its value, inside an array or an object.
    ObjectVal(Box<Value>, Box<Value>),
    /// The token `0` or `1`.
    Bool(Seq<u8>),
    /// The elements in input order.
    Array(Seq<Value>),
    /// The payload, one entry for each character.
    String(Seq<Seq<u8>>),
    /// No input was left.
    Eof,
}

/// A failure as a mathematical object: what is wrong, the rule that could
/// not go on, and how many bytes into the input it stopped.
pub struct Miss {
    pub kind: ErrorKind,
    pub rule: Rule,
    pub at: nat,
}

/// What a recognizer yields on a given input: the value and the number of
/// bytes it covers, or the failure.
pub type Outcome = Result<(Value, nat), Miss>;

/// What a run of elements yields: the values and the bytes they cover.
pub type Outcomes = Result<(Seq<Value>, nat), Miss>;

/// What a header yields: the digits of the declared number and the
/// bytes that the header covers.
pub type Header = Result<(Seq<u8>, nat), Miss>;

/// What the opening of an object yields: the digits of the declared name
/// length, the name, and the bytes covered.
pub type Opening = Result<(Seq<u8>, Seq<u8>, nat), Miss>;

impl View for ParseError {
    type V = Miss;

    open spec fn view(&self) -> Miss {
        Miss { kind: self.kind, rule: self.rule, at: self.at as nat }
    }
}

/// The failure of `rule` for `kind`, `at` bytes into the input.
pub open spec fn miss(kind: ErrorKind, rule: Rule, at: nat) -> Miss {
    Miss { kind, rule, at }
}

/// The failure `m` as seen from `by` bytes further to the front.
pub open spec fn shift(m: Miss, by: nat) -> Miss {
    Miss { kind: m.kind, rule: m.rule, at: m.at + by }
}

/// Is `text` a number without a sign: at least one digit and nothing but
/// digits?
pub open spec fn digits_text(text: Seq<u8>) -> bool {
    text.len() > 0 && all_digits(text)
}

/// 1 when `s` opens with a sign, else 0.
pub open spec fn sign_len(s: Seq<u8>) -> nat {
    if s.len() > 0 && (s[0] == '-' as u8 || s[0] == '+' as u8) {
        1
    } else {
        0
    }
}

/// Is `text` a number as the integer form writes it: an optional sign,
/// then at least one digit and nothing but digits?
pub open spec fn integer_text(text: Seq<u8>) -> bool {
    digits_text(text.skip(sign_len(text) as int))
}

/// Is `text` a name: at least one letter or digit and nothing else?
pub open spec fn name_text(text: Seq<u8>) -> bool {
    text.len() > 0 && forall|i: int| 0 <= i < text.len() ==> is_alphanumeric(#[trigger] text[i])
}

/// Is `value` one that the dispatcher yields on input that is not empty:
/// neither the end marker nor a key with its value?
pub open spec fn plain(value: Value) -> bool {
    !(value is Eof) && !(value is ObjectVal)
}

/// May `value` stand in a container: as an entry, or where the container
/// is not `keyed` as a bare value?
pub open spec fn fits(value: Value, keyed: bool) -> bool {
    value is ObjectVal || (!keyed && plain(value))
}

/// Does `value` hold what a decoded value holds: numbers that are
/// numbers, boolean tokens that are `0` or `1`, strings cut into their
/// characters, keys that are strings, and an object name as long as
/// declared?
pub open spec fn well_formed(value: Value) -> bool
    decreases value,
{
    match value {
        Value::Integer(text) => integer_text(text),
        Value::Double(whole, frac) => digits_text(whole) && digits_text(frac),
        Value::Null(text) => text == two('N', ';'),
        Value::Object(len, name, items) => {
            &&& digits_text(len)
            &&& name_text(name)
            &&& decimal(len) == name.len()
            &&& well_formed_rows(items, items.len(), true)
        },
        Value::ObjectVal(key, inner) => {
            &&& *key is String
            &&& plain(*inner)
            &&& well_formed(*key)
            &&& well_formed(*inner)
        },
        Value::Bool(token) => token == one('0') || token == one('1'),
        Value::Array(items) => well_formed_rows(items, items.len(), false),
        Value::String(spans) => spans == char_spans(spans.flatten()),
        Value::Eof => true,
    }
}

/// Are the first `count` of `items` well formed, and may each stand in a
/// container?
pub open spec fn well_formed_rows(items: Seq<Value>, count: nat, keyed: bool) -> bool
    decreases items, count,
{
    if count == 0 || count > items.len() {
        true
    } else {
        &&& well_formed_rows(items, (count - 1) as nat, keyed)
        &&& well_formed(items[count - 1])
        &&& fits(items[count - 1], keyed)
    }
}

/// `i:<sign?><digits>;`
#[verifier::opaque]
pub open spec fn spec_int(s: Seq<u8>) -> Outcome {
    let body = s.skip(2);
    let sign = sign_len(body);
    let run = digit_run(body.skip(sign as int));
    if !starts_with(s, two('i', ':')) {
        Err(miss(ErrorKind::SyntaxMismatch, Rule::Integer, 0))
    } else if run == 0 {
        Err(miss(ErrorKind::MalformedScalar, Rule::Integer, 2 + sign))
    } else if !starts_with(body.skip((sign + run) as int), one(';')) {
        Err(miss(ErrorKind::SyntaxMismatch, Rule::Integer, 2 + sign + run))
    } else {
        Ok((Value::Integer(body.take((sign + run) as int)), 2 + sign + run + 1))
    }
}

/// `N;`
#[verifier::opaque]
pub open spec fn spec_null(s: Seq<u8>) -> Outcome {
    if starts_with(s, two('N', ';')) {
        Ok((Value::Null(two('N', ';')), 2))
    } else {
        Err(miss(ErrorKind::SyntaxMismatch, Rule::Null, 0))
    }
}

/// The end of the input, and nothing else.
pub open spec fn spec_eof(s: Seq<u8>) -> Outcome {
    if s.len() == 0 {
        Ok((Value::Eof, 0))
    } else {
        Err(miss(ErrorKind::SyntaxMismatch, Rule::Eof, 0))
    }
}

/// `b:<0|1>;`
#[verifier::opaque]
pub open spec fn spec_bool(s: Seq<u8>) -> Outcome {
    if !starts_with(s, two('b', ':')) {
        Err(miss(ErrorKind::SyntaxMismatch, Rule::Bool, 0))
    } else if !(s.len() > 2 && (s[2] == '0' as u8 || s[2] == '1' as u8)) {
        Err(miss(ErrorKind::MalformedScalar, Rule::Bool, 2))
    } else if !starts_with(s.skip(3), one(';')) {
        Err(miss(ErrorKind::SyntaxMismatch, Rule::Bool, 3))
    } else {
        Ok((Value::Bool(seq![s[2]]), 4))
    }
}

/// `d:<digits>.<digits>;`
#[verifier::opaque]
pub open spec fn spec_double(s: Seq<u8>) -> Outcome {
    let body = s.skip(2);
    let whole = digit_run(body);
    let frac = digit_run(body.skip(whole as int + 1));
    if !starts_with(s, two('d', ':')) {
        Err(miss(ErrorKind::SyntaxMismatch, Rule::Double, 0))
    } else if whole == 0 {
        Err(miss(ErrorKind::MalformedScalar, Rule::Double, 2))
    } else if !starts_with(body.skip(whole as int), one('.')) {
        Err(miss(ErrorKind::MalformedScalar, Rule::Double, 2 + whole))
    } else if frac == 0 {
        Err(miss(ErrorKind::MalformedScalar, Rule::Double, 2 + whole + 1))
    } else if !starts_with(body.skip((whole + 1 + frac) as int), one(';')) {
        Err(miss(ErrorKind::SyntaxMismatch, Rule::Double, 2 + whole + 1 + frac))
    } else {
        Ok(
            (
                Value::Double(
                    body.take(whole as int),
                    body.subrange(whole as int + 1, (whole + 1 + frac) as int),
                ),
                2 + whole + 1 + frac + 1,
            ),
        )
    }
}

/// `<tag><digits><open>`: a declared number between two literals, as part
/// of `rule`.
#[verifier::opaque]
pub open spec fn spec_header(s: Seq<u8>, tag: Seq<u8>, open: Seq<u8>, rule: Rule) -> Header {
    let run = digit_run(s.skip(tag.len() as int));
    if !starts_with(s, tag) {
        Err(miss(ErrorKind::SyntaxMismatch, rule, 0))
    } else if run == 0 {
        Err(miss(ErrorKind::MalformedScalar, rule, tag.len()))
    } else if !starts_with(s.skip((tag.len() + run) as int), open) {
        Err(miss(ErrorKind::SyntaxMismatch, rule, tag.len() + run))
    } else {
        Ok((s.subrange(tag.len() as int, (tag.len() + run) as int), tag.len() + run + open.len()))
    }
}

/// Do exactly `declared` bytes of payload open `body`, with `";` behind
/// them?
pub open spec fn payload_fits(body: Seq<u8>, declared: nat) -> bool {
    &&& declared + 2 <= body.len()
    &&& body[declared as int] == '"' as u8
    &&& body[declared as int + 1] == ';' as u8
}

/// `s:<N>:"<N bytes>";`
#[verifier::opaque]
pub open spec fn spec_string(s: Seq<u8>) -> Outcome {
    match spec_header(s, two('s', ':'), two(':', '"'), Rule::String) {
        Err(m) => Err(m),
        Ok((digits, head)) => {
            let declared = decimal(digits);
            if !payload_fits(s.skip(head as int), declared) {
                Err(miss(ErrorKind::LengthMismatch, Rule::String, head))
            } else {
                Ok(
                    (
                        Value::String(char_spans(s.subrange(head as int, (head + declared) as int))),
                        head + declared + 2,
                    ),
                )
            }
        },
    }
}

/// `O:<L>:"<name>`, where the name is a run of letters and digits that is
/// `L` bytes long.
#[verifier::opaque]
pub open spec fn spec_opening(s: Seq<u8>) -> Opening {
    match spec_header(s, two('O', ':'), two(':', '"'), Rule::Object) {
        Err(m) => Err(m),
        Ok((len_digits, name_at)) => {
            let run = alphanumeric_run(s.skip(name_at as int));
            if run == 0 {
                Err(miss(ErrorKind::SyntaxMismatch, Rule::Object, name_at))
            } else if decimal(len_digits) != run {
                Err(miss(ErrorKind::LengthMismatch, Rule::Object, name_at))
            } else {
                Ok((len_digits, s.subrange(name_at as int, (name_at + run) as int), name_at + run))
            }
        },
    }
}

/// What is left of `s` behind its first `used` bytes.
pub open spec fn behind(s: Seq<u8>, used: nat) -> Seq<u8> {
    if used <= s.len() {
        s.skip(used as int)
    } else {
        seq![]
    }
}

/// The outcome of a run when `values`, covering `used` bytes, came before
/// what `rest` says of the remainder.
pub open spec fn follow(values: Seq<Value>, used: nat, rest: Outcomes) -> Outcomes {
    match rest {
        Ok((more_values, more)) => Ok((values + more_values, used + more)),
        Err(m) => Err(shift(m, used)),
    }
}

/// The rule of a container whose elements are entries, or are not.
pub open spec fn container(keyed: bool) -> Rule {
    if keyed {
        Rule::Object
    } else {
        Rule::Array
    }
}

/// What is wrong, if anything, at the place where a container's `}` is
/// due.
pub open spec fn closing(s: Seq<u8>) -> Option<ErrorKind> {
    if s.len() == 0 {
        Some(ErrorKind::Exhausted)
    } else if s[0] != '}' as u8 {
        Some(ErrorKind::LengthMismatch)
    } else {
        None
    }
}

/// `a:<N>:{<N elements>}`
pub open spec fn spec_array(s: Seq<u8>) -> Outcome
    decreases s.len(), 0nat,
{
    match spec_header(s, two('a', ':'), two(':', '{'), Rule::Array) {
        Err(m) => Err(m),
        Ok((digits, head)) => {
            proof {
                header_bound(s, two('a', ':'), two(':', '{'), Rule::Array);
            }
            match spec_body(s.skip(head as int), decimal(digits), false) {
                Err(m) => Err(shift(m, head)),
                Ok((values, used)) => Ok((Value::Array(values), head + used)),
            }
        },
    }
}

/// `O:<L>:"<name>":<N>:{<N pairs>}`
pub open spec fn spec_object(s: Seq<u8>) -> Outcome
    decreases s.len(), 0nat,
{
    match spec_opening(s) {
        Err(m) => Err(m),
        Ok((len_digits, name, at)) => match spec_header(
            s.skip(at as int),
            two('"', ':'),
            two(':', '{'),
            Rule::Object,
        ) {
            Err(m) => Err(shift(m, at)),
            Ok((digits, more)) => {
                proof {
                    opening_bound(s);
                    header_bound(s.skip(at as int), two('"', ':'), two(':', '{'), Rule::Object);
                }
                match spec_body(s.skip((at + more) as int), decimal(digits), true) {
                    Err(m) => Err(shift(m, at + more)),
                    Ok((values, used)) => Ok(
                        (Value::Object(len_digits, name, values), at + more + used),
                    ),
                }
            },
        },
    }
}

/// The inside of a container up to its `}`: `declared` elements, which
/// are entries where `keyed` is set, then the closing brace.
pub open spec fn spec_body(s: Seq<u8>, declared: nat, keyed: bool) -> Outcomes
    decreases s.len(), 5 + declared,
{
    match spec_elements(s, declared, keyed) {
        Err(m) => Err(m),
        Ok((values, used)) => match closing(behind(s, used)) {
            Some(kind) => Err(miss(kind, container(keyed), used)),
            None => Ok((values, used + 1)),
        },
    }
}

/// `count` elements in a row, which are entries where `keyed` is set.
/// Where an element is due, the end of the input and a closing brace are
/// failures of the container.
pub open spec fn spec_elements(s: Seq<u8>, count: nat, keyed: bool) -> Outcomes
    decreases s.len(), 4 + count,
{
    if count == 0 {
        Ok((seq![], 0))
    } else if s.len() == 0 {
        Err(miss(ErrorKind::Exhausted, container(keyed), 0))
    } else if s[0] == '}' as u8 {
        Err(miss(ErrorKind::LengthMismatch, container(keyed), 0))
    } else {
        match (if keyed {
            spec_pair(s)
        } else {
            spec_element(s)
        }) {
            Err(m) => Err(m),
            Ok((first, used)) => follow(
                seq![first],
                used,
                spec_elements(behind(s, used), (count - 1) as nat, keyed),
            ),
        }
    }
}

/// One array element: a string key followed by a value where both are
/// there, a bare value otherwise.
pub open spec fn spec_element(s: Seq<u8>) -> Outcome
    decreases s.len(), 3nat,
{
    match spec_string(s) {
        Ok((key, used)) => match spec_value(behind(s, used)) {
            Ok((value, more)) => Ok(
                (Value::ObjectVal(Box::new(key), Box::new(value)), used + more),
            ),
            Err(_) => spec_value(s),
        },
        Err(_) => spec_value(s),
    }
}

/// One object entry: a string key, then a value.
pub open spec fn spec_pair(s: Seq<u8>) -> Outcome
    decreases s.len(), 3nat,
{
    match spec_string(s) {
        Err(m) => Err(m),
        Ok((key, used)) => match spec_value(behind(s, used)) {
            Ok((value, more)) => Ok(
                (Value::ObjectVal(Box::new(key), Box::new(value)), used + more),
            ),
            Err(m) => Err(shift(m, used)),
        },
    }
}

/// A value inside a container: as `spec_any`, but the end of the input is
/// a failure there.
pub open spec fn spec_value(s: Seq<u8>) -> Outcome
    decreases s.len(), 2nat,
{
    if s.len() == 0 {
        Err(miss(ErrorKind::Exhausted, Rule::Any, 0))
    } else {
        spec_any(s)
    }
}

/// Any value, chosen by the tag that opens the input; the end marker on
/// empty input.
pub open spec fn spec_any(s: Seq<u8>) -> Outcome
    decreases s.len(), 1nat,
{
    if s.len() == 0 {
        Ok((Value::Eof, 0))
    } else if s[0] == 'i' as u8 {
        spec_int(s)
    } else if s[0] == 'N' as u8 {
        spec_null(s)
    } else if s[0] == 'd' as u8 {
        spec_double(s)
    } else if s[0] == 'a' as u8 {
        spec_array(s)
    } else if s[0] == 'O' as u8 {
        spec_object(s)
    } else if s[0] == 's' as u8 {
        spec_string(s)
    } else if s[0] == 'b' as u8 {
        spec_bool(s)
    } else {
        Err(miss(ErrorKind::SyntaxMismatch, Rule::Any, 0))
    }
}

/// What came before what came before the remainder came before it as one.
pub proof fn follow_twice(
    values: Seq<Value>,
    used: nat,
    more_values: Seq<Value>,
    more: nat,
    rest: Outcomes,
)
    ensures
        follow(values, used, follow(more_values, more, rest)) == follow(
            values + more_values,
            used + more,
            rest,
        ),
{
    if let Ok((last_values, _)) = rest {
        assert(values + (more_values + last_values) =~= (values + more_values) + last_values);
    }
}

/// A header covers at least the bytes of its two literals and one digit,
/// and no more than the input holds; its digits are digits. Where it
/// fails, it fails inside the input.
pub proof fn header_bound(s: Seq<u8>, tag: Seq<u8>, open: Seq<u8>, rule: Rule)
    ensures
        match spec_header(s, tag, open, rule) {
            Ok((digits, used)) => {
                &&& tag.len() + open.len() < used <= s.len()
                &&& digits.len() == used - tag.len() - open.len()
                &&& digits_text(digits)
            },
            Err(m) => m.at <= s.len() && m.rule == rule,
        },
{
    reveal(spec_header);
    let after = s.skip(tag.len() as int);
    digit_run_bound(after);
    digit_run_digits(after);
    if spec_header(s, tag, open, rule) is Ok {
        assert(s.subrange(tag.len() as int, (tag.len() + digit_run(after)) as int) =~= after.take(
            digit_run(after) as int,
        ));
    }
}

/// The opening of an object covers at least one byte, and no more than
/// the input holds. Where it fails, it fails inside the input.
pub proof fn opening_bound(s: Seq<u8>)
    ensures
        match spec_opening(s) {
            Ok((_, _, used)) => 0 < used <= s.len(),
            Err(m) => m.at <= s.len(),
        },
{
    reveal(spec_opening);
    header_bound(s, two('O', ':'), two(':', '"'), Rule::Object);
    if let Ok((_, name_at)) = spec_header(s, two('O', ':'), two(':', '"'), Rule::Object) {
        alphanumeric_run_bound(s.skip(name_at as int));
    }
}

/// Does `outcome` stay inside `s`: does it cover, or fail at, no more
/// bytes than `s` holds?
pub open spec fn inside(outcome: Outcome, s: Seq<u8>) -> bool {
    match outcome {
        Ok((_, used)) => used <= s.len(),
        Err(m) => m.at <= s.len(),
    }
}

/// As `inside`, for a run of elements.
pub open spec fn all_inside(outcome: Outcomes, s: Seq<u8>) -> bool {
    match outcome {
        Ok((_, used)) => used <= s.len(),
        Err(m) => m.at <= s.len(),
    }
}

/// A string that is recognized covers at least one byte, and is what the
/// dispatcher finds at the same place. Whatever comes of a string stays
/// inside the input.
pub proof fn string_progress(s: Seq<u8>)
    ensures
        spec_string(s) matches Ok((_, used)) ==> 0 < used && spec_value(s) == spec_string(s),
        inside(spec_string(s), s),
{
    reveal(spec_string);
    reveal(spec_header);
    header_bound(s, two('s', ':'), two(':', '"'), Rule::String);
    starts_with_two(s, 's', ':');
}

/// A scalar that is recognized covers at least one byte. Whatever comes
/// of a scalar stays inside the input.
pub proof fn scalar_progress(s: Seq<u8>)
    ensures
        spec_int(s) matches Ok((_, used)) ==> 0 < used,
        spec_null(s) matches Ok((_, used)) ==> 0 < used,
        spec_double(s) matches Ok((_, used)) ==> 0 < used,
        spec_bool(s) matches Ok((_, used)) ==> 0 < used,
        inside(spec_int(s), s),
        inside(spec_null(s), s),
        inside(spec_double(s), s),
        inside(spec_bool(s), s),
{
    reveal(spec_int);
    reveal(spec_null);
    reveal(spec_bool);
    reveal(spec_double);
    let body = s.skip(2);
    starts_with_one(s.skip(3), ';');
    digit_run_bound(body);
    digit_run_bound(body.skip(sign_len(body) as int));
    digit_run_bound(body.skip(digit_run(body) as int + 1));
    starts_with_one(body.skip(digit_run(body) as int), '.');
}

/// A value that is recognized on input that is not empty covers at least
/// one byte of it. Whatever comes of a value stays inside the input.
pub proof fn value_progress(s: Seq<u8>)
    ensures
        s.len() > 0 ==> (spec_any(s) matches Ok((_, used)) ==> 0 < used),
        inside(spec_any(s), s),
        inside(spec_value(s), s),
    decreases s.len(), 1nat,
{
    if s.len() > 0 {
        scalar_progress(s);
        string_progress(s);
        if s[0] == 'a' as u8 {
            header_bound(s, two('a', ':'), two(':', '{'), Rule::Array);
            if let Ok((digits, head)) = spec_header(s, two('a', ':'), two(':', '{'), Rule::Array) {
                body_progress(s.skip(head as int), decimal(digits), false);
            }
        } else if s[0] == 'O' as u8 {
            opening_bound(s);
            if let Ok((_, _, at)) = spec_opening(s) {
                let after = s.skip(at as int);
                header_bound(after, two('"', ':'), two(':', '{'), Rule::Object);
                if let Ok((digits, more)) = spec_header(
                    after,
                    two('"', ':'),
                    two(':', '{'),
                    Rule::Object,
                ) {
                    body_progress(s.skip((at + more) as int), decimal(digits), true);
                }
            }
        }
    }
}

/// An element that is recognized covers at least one byte. Whatever comes
/// of an element stays inside the input.
pub proof fn element_progress(s: Seq<u8>, keyed: bool)
    requires
        s.len() > 0,
    ensures
        (if keyed {
            spec_pair(s)
        } else {
            spec_element(s)
        }) matches Ok((_, used)) ==> 0 < used,
        inside(
            if keyed {
                spec_pair(s)
            } else {
                spec_element(s)
            },
            s,
        ),
    decreases s.len(), 3nat,
{
    string_progress(s);
    value_progress(s);
    if let Ok((_, used)) = spec_string(s) {
        value_progress(s.skip(used as int));
    }
}

/// A run of elements covers at least one byte for each element. Whatever
/// comes of it stays inside the input.
pub proof fn elements_progress(s: Seq<u8>, count: nat, keyed: bool)
    ensures
        spec_elements(s, count, keyed) matches Ok((values, used)) ==> count <= used
            && values.len() == count,
        all_inside(spec_elements(s, count, keyed), s),
    decreases s.len(), 4 + count,
{
    if count > 0 && s.len() > 0 && s[0] != '}' as u8 {
        element_progress(s, keyed);
        let first = if keyed {
            spec_pair(s)
        } else {
            spec_element(s)
        };
        if let Ok((_, used)) = first {
            elements_progress(s.skip(used as int), (count - 1) as nat, keyed);
        }
    }
}

/// The inside of a container covers its closing brace at least, and has
/// as many elements as were declared. Whatever comes of it stays inside
/// the input.
pub proof fn body_progress(s: Seq<u8>, declared: nat, keyed: bool)
    ensures
        spec_body(s, declared, keyed) matches Ok((values, used)) ==> 0 < used && values.len()
            == declared,
        all_inside(spec_body(s, declared, keyed), s),
    decreases s.len(), 5 + declared,
{
    elements_progress(s, declared, keyed);
}

} // verus!
