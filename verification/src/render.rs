use crate::grammar::{well_formed, well_formed_rows, Value};
use crate::lex::{bytes_of, one, same_text, spans_of, text_one};
use crate::php::{views, Parsed};
use vstd::prelude::*;
use vstd::string::*;
use vstd::utf8::*;

verus! {

/// The characters that `bytes` encode.
pub open spec fn text(bytes: Seq<u8>) -> Seq<char> {
    decode_utf8(bytes)
}

/// The characters of all `spans`, one span after the other.
pub open spec fn joined_text(spans: Seq<Seq<u8>>) -> Seq<char>
    decreases spans.len(),
{
    if spans.len() == 0 {
        seq![]
    } else {
        joined_text(spans.drop_last()) + text(spans.last())
    }
}

/// What `{:?}` prints for a list of values: the listing that the derived
/// `Debug` gives. It is named here and not written out.
pub uninterp spec fn debug_listing(items: Seq<Value>) -> Seq<char>;

/// Can `value` be rendered: is every boolean token in it, outside the
/// entries of objects, `0` or `1`?
pub open spec fn renderable(value: Value) -> bool
    decreases value,
{
    match value {
        Value::Bool(token) => token == one('0') || token == one('1'),
        Value::ObjectVal(key, inner) => renderable(*key) && renderable(*inner),
        Value::Array(items) => renderable_rows(items, items.len()),
        _ => true,
    }
}

/// Can the first `count` of `items` be rendered?
pub open spec fn renderable_rows(items: Seq<Value>, count: nat) -> bool
    decreases items, count,
{
    if count == 0 || count > items.len() {
        true
    } else {
        renderable_rows(items, (count - 1) as nat) && renderable(items[count - 1])
    }
}

/// Where a run of items can be rendered, each of them can.
pub proof fn row_renderable(items: Seq<Value>, count: nat, at: int)
    requires
        count <= items.len(),
        renderable_rows(items, count),
        0 <= at < count,
    ensures
        renderable(items[at]),
    decreases count,
{
    if at < count - 1 {
        row_renderable(items, (count - 1) as nat, at);
    }
}

/// Whatever is well formed can be rendered.
pub proof fn well_formed_is_renderable(value: Value)
    requires
        well_formed(value),
    ensures
        renderable(value),
    decreases value, 1nat,
{
    match value {
        Value::ObjectVal(key, inner) => {
            well_formed_is_renderable(*key);
            well_formed_is_renderable(*inner);
        },
        Value::Array(items) => {
            well_formed_rows_are_renderable(items, items.len());
        },
        _ => {},
    }
}

/// A run of well formed items can be rendered.
pub proof fn well_formed_rows_are_renderable(items: Seq<Value>, count: nat)
    requires
        well_formed_rows(items, count, false),
    ensures
        renderable_rows(items, count),
    decreases items, count,
{
    if count > 0 && count <= items.len() {
        well_formed_rows_are_renderable(items, (count - 1) as nat);
        well_formed_is_renderable(items[count - 1]);
    }
}

/// The rendering of `count` items from the front of `items`, each
/// followed by a comma, a space and a line break.
pub open spec fn spec_rows(items: Seq<Value>, count: nat) -> Seq<char>
    decreases items, count,
{
    if count == 0 || count > items.len() {
        seq![]
    } else {
        spec_rows(items, (count - 1) as nat) + spec_render(items[count - 1]) + ", \n"@
    }
}

/// The readable form of `value`.
pub open spec fn spec_render(value: Value) -> Seq<char>
    decreases value,
{
    match value {
        Value::Integer(digits) => text(digits),
        Value::Double(whole, frac) => text(whole) + "."@ + text(frac),
        Value::Null(_) => "Null"@,
        Value::Object(len, name, items) => spec_render_object(
            text(len),
            text(name),
            debug_listing(items),
        ),
        Value::ObjectVal(key, inner) => spec_render(*key) + ": "@ + spec_render(*inner),
        Value::Bool(token) => if token == one('0') {
            "false"@
        } else {
            "true"@
        },
        Value::Array(items) => "["@ + (if items.len() == 0 {
            seq![]
        } else {
            "\n"@
        }) + spec_rows(items, items.len()) + "]"@,
        Value::String(spans) => "\""@ + joined_text(spans) + "\""@,
        Value::Eof => "EOF"@,
    }
}

/// The readable form of an object, given that of its parts.
pub open spec fn spec_render_object(len: Seq<char>, name: Seq<char>, listing: Seq<char>) -> Seq<
    char,
> {
    "("@ + len + ", "@ + name + "):("@ + listing + ")"@
}

/// `format!` with `{:?}` on a list of decoded values, which prints them
/// through the `Debug` that the type derives. What it prints depends on
/// the values alone; no more is claimed of it.
#[verifier::external_body]
fn debug_text(items: &Vec<Parsed<'_>>) -> (out: String)
    ensures
        out@ == debug_listing(views(items@)),
{
    format!("{:?}", items)
}

/// The characters of a string are what its bytes encode.
proof fn text_of(s: &str)
    ensures
        text(bytes_of(s)) == s@,
{
    reveal(bytes_of);
    encode_utf8_decode_utf8(s@);
}

/// Puts the readable form of an object together: the declared name
/// length and the name in round brackets, then the listing of the entries
/// in round brackets behind a colon.
pub fn render_object(len: &str, name: &str, listing: &str) -> (out: String)
    ensures
        out@ == spec_render_object(len@, name@, listing@),
{
    let mut out = String::from_str("(");
    out.append(len);
    out.append(", ");
    out.append(name);
    out.append("):(");
    out.append(listing);
    out.append(")");
    out
}

/// Is `token` the token of the given truth value?
fn is_token(token: &str, truth: bool) -> (same: bool)
    ensures
        same == (bytes_of(token) == one(
            if truth {
                '1'
            } else {
                '0'
            },
        )),
{
    proof {
        reveal_strlit("0");
        reveal_strlit("1");
        text_one("0", '0');
        text_one("1", '1');
    }
    if truth {
        same_text(token, "1")
    } else {
        same_text(token, "0")
    }
}

/// Joins the characters of a string value.
fn render_chars(chars: &Vec<&str>) -> (out: String)
    ensures
        out@ == joined_text(spans_of(chars@)),
{
    let mut out = String::new();
    let mut i: usize = 0;
    while i < chars.len()
        invariant
            i <= chars.len(),
            out@ == joined_text(spans_of(chars@.take(i as int))),
        decreases chars.len() - i,
    {
        proof {
            let now = spans_of(chars@.take(i + 1));
            assert(now.drop_last() =~= spans_of(chars@.take(i as int)));
            assert(now.last() == bytes_of(chars@[i as int]));
            text_of(chars@[i as int]);
        }
        out.append(chars[i]);
        i += 1;
    }
    proof {
        assert(chars@.take(i as int) =~= chars@);
    }
    out
}

impl<'a> Parsed<'a> {
    /// Says whether `render` may be called: whether every boolean token
    /// that it would print is `0` or `1`.
    pub fn is_renderable(&self) -> (ok: bool)
        ensures
            ok == renderable(self@),
        decreases self,
    {
        match self {
            Parsed::Bool(token) => is_token(token, false) || is_token(token, true),
            Parsed::ObjectVal(pair) => pair.0.is_renderable() && pair.1.is_renderable(),
            Parsed::Array(items) => {
                let mut i: usize = 0;
                while i < items.len()
                    invariant
                        i <= items.len(),
                        *self == Parsed::Array(*items),
                        renderable_rows(views(items@), i as nat),
                    decreases items.len() - i,
                {
                    proof {
                        vstd::std_specs::vec::axiom_vec_index_decreases(*items, i as int);
                        assert(decreases_to!(*self => *items));
                        assert(decreases_to!(*items => items@[i as int]));
                        assert(self@ == Value::Array(views(items@)));
                    }
                    if !items[i].is_renderable() {
                        proof {
                            assert(views(items@)[i as int] == items@[i as int]@);
                            if renderable_rows(views(items@), items@.len()) {
                                row_renderable(views(items@), items@.len(), i as int);
                            }
                        }
                        return false;
                    }
                    proof {
                        assert(views(items@)[i as int] == items@[i as int]@);
                    }
                    i += 1;
                }
                proof {
                    assert(self@ == Value::Array(views(items@)));
                }
                true
            },
            _ => true,
        }
    }

    /// The readable form of the value: numbers as written, booleans as
    /// `true` and `false`, strings in quotes, arrays as a bracketed list
    /// with one element to a line, objects with the listing of their
    /// entries.
    pub fn render(&self) -> (out: String)
        requires
            renderable(self@),
        ensures
            out@ == spec_render(self@),
        decreases self,
    {
        match self {
            Parsed::Integer(digits) => {
                proof {
                    text_of(digits);
                }
                String::from_str(digits)
            },
            Parsed::Double((whole, frac)) => {
                proof {
                    text_of(whole);
                    text_of(frac);
                }
                let mut out = String::from_str(whole);
                out.append(".");
                out.append(frac);
                out
            },
            Parsed::Null(_) => String::from_str("Null"),
            Parsed::Object((len, name, items)) => {
                proof {
                    text_of(len);
                    text_of(name);
                }
                let listing = debug_text(items);
                render_object(len, name, listing.as_str())
            },
            Parsed::ObjectVal(pair) => {
                let mut out = pair.0.render();
                let inner = pair.1.render();
                out.append(": ");
                out.append(inner.as_str());
                out
            },
            Parsed::Bool(token) => if is_token(token, false) {
                String::from_str("false")
            } else {
                String::from_str("true")
            },
            Parsed::Array(items) => {
                let mut out = String::from_str("[");
                if items.len() != 0 {
                    out.append("\n");
                }
                let ghost opening = out@;
                let mut i: usize = 0;
                while i < items.len()
                    invariant
                        i <= items.len(),
                        *self == Parsed::Array(*items),
                        renderable(self@),
                        out@ == opening + spec_rows(views(items@), i as nat),
                    decreases items.len() - i,
                {
                    proof {
                        vstd::std_specs::vec::axiom_vec_index_decreases(*items, i as int);
                        assert(self@ == Value::Array(views(items@)));
                        assert(views(items@)[i as int] == items@[i as int]@);
                        row_renderable(views(items@), items@.len(), i as int);
                    }
                    let row = items[i].render();
                    out.append(row.as_str());
                    out.append(", \n");
                    i += 1;
                }
                out.append("]");
                out
            },
            Parsed::String(chars) => {
                let mut out = String::from_str("\"");
                let inner = render_chars(chars);
                out.append(inner.as_str());
                out.append("\"");
                out
            },
            Parsed::Eof => String::from_str("EOF"),
        }
    }
}

} // verus!
