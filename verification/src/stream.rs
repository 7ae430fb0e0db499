use crate::grammar::{follow, follow_twice, spec_any, value_progress, Outcomes, Value};
use crate::lex::{byte_len, bytes_of};
use crate::php::{deeper, parse_any, views, Parsed};
use crate::util::ParseError;
use vstd::prelude::*;
use vstd::string::*;
use vstd::utf8::*;

verus! {

/// The values that follow one another in `s` up to its end.
pub open spec fn spec_stream(s: Seq<u8>) -> Outcomes
    decreases s.len(),
{
    if s.len() == 0 {
        Ok((seq![], 0))
    } else {
        match spec_any(s) {
            Err(e) => Err(e),
            Ok((first, used)) => {
                proof {
                    value_progress(s);
                }
                follow(seq![first], used, spec_stream(s.skip(used as int)))
            },
        }
    }
}

/// The characters of `lines`, one line after the other with nothing in
/// between.
pub open spec fn joined(lines: Seq<&str>) -> Seq<char>
    decreases lines.len(),
{
    if lines.len() == 0 {
        seq![]
    } else {
        joined(lines.drop_last()) + lines.last()@
    }
}

/// Decodes the values that follow one another in `input`, up to its end.
/// The first value that fails to decode fails the whole stream.
pub fn parse_stream<'a>(input: &'a str) -> (res: Result<Vec<Parsed<'a>>, ParseError>)
    ensures
        match (res, spec_stream(bytes_of(input))) {
            (Ok(items), Ok((values, used))) => views(items@) == values && used == bytes_of(
                input,
            ).len(),
            (Err(e), Err(m)) => e@ == m,
            _ => false,
        },
{
    let ghost s = bytes_of(input);
    let mut items: Vec<Parsed<'a>> = Vec::new();
    let mut left: &'a str = input;
    let ghost mut used: nat = 0;
    proof {
        assert(s.skip(0) =~= s);
        assert(views(items@) =~= seq![]);
        if let Ok((values, _)) = spec_stream(s) {
            assert(Seq::<Value>::empty() + values =~= values);
        }
    }
    while byte_len(left) > 0
        invariant
            s == bytes_of(input),
            used <= s.len(),
            bytes_of(left) == s.skip(used as int),
            spec_stream(s) == follow(views(items@), used, spec_stream(bytes_of(left))),
        decreases bytes_of(left).len(),
    {
        proof {
            value_progress(bytes_of(left));
        }
        let (rest, item) = match parse_any(left) {
            Ok(found) => found,
            Err(e) => { return Err(deeper(input, left, e)); },
        };
        proof {
            let step = (bytes_of(left).len() - bytes_of(rest).len()) as nat;
            follow_twice(views(items@), used, seq![item@], step, spec_stream(bytes_of(rest)));
            assert(bytes_of(rest) =~= s.skip((used + step) as int));
            assert(views(items@.push(item)) =~= views(items@) + seq![item@]);
            used = used + step;
        }
        items.push(item);
        left = rest;
    }
    proof {
        assert(views(items@) + Seq::<Value>::empty() =~= views(items@));
    }
    Ok(items)
}

/// Joins `input` into one text and decodes the values that follow one
/// another in it. Hands back how many there are.
pub fn parse_all(input: Vec<&str>) -> (res: Result<usize, ParseError>)
    ensures
        match (res, spec_stream(encode_utf8(joined(input@)))) {
            (Ok(n), Ok((values, _))) => n == values.len(),
            (Err(e), Err(m)) => e@ == m,
            _ => false,
        },
{
    let mut text = String::new();
    let mut i: usize = 0;
    while i < input.len()
        invariant
            i <= input.len(),
            text@ == joined(input@.take(i as int)),
        decreases input.len() - i,
    {
        proof {
            assert(input@.take(i + 1).drop_last() =~= input@.take(i as int));
        }
        text.append(input[i]);
        i += 1;
    }
    proof {
        assert(input@.take(i as int) =~= input@);
        reveal(bytes_of);
    }
    match parse_stream(text.as_str()) {
        Ok(items) => Ok(items.len()),
        Err(e) => Err(e),
    }
}

} // verus!
