//! A recursive-descent JSON parser whose grammar is stated as specification
//! functions and whose executable code is proved to follow them.
//!
//! The functions of this module take a text and return what they recognised
//! at its start together with the rest of the text. Two choices of the
//! grammar are fixed here: one comma may follow the last element of an array
//! and the last member of an object, and [`JsonParser::parse`] rejects a text
//! in which anything but whitespace follows the value.

pub mod compact;
pub mod context;
pub mod errors;
pub mod grammar;
pub mod laws;
pub mod lexer;
pub mod parser;
pub mod text;
pub mod value;
pub mod whitespace;

use crate::errors::{Failure, JsonError};
use crate::grammar::{
    spec_array, spec_bool, spec_document, spec_literal, spec_member, spec_object, spec_quoted,
    spec_raw_body, spec_space, spec_value, with_rest, MAX_DEPTH,
};
use crate::lexer::{
    char_at, match_literal_tag, scan_number, scan_quoted_string, scan_string_body,
    skip_whitespace,
};
use crate::parser::{
    all_wf, entries_wf, parse_elements_at, parse_member_at, parse_members_at, parse_value_at,
};
use crate::text::chars_of;
use crate::value::{items_view, members_view, Json, Value};
use vstd::prelude::*;
use vstd::string::StrSliceExecFns;

verus! {

/// Splits `input`, which has `len` characters, at index `end`.
fn split<'a>(input: &'a str, len: usize, end: usize) -> (parts: (&'a str, &'a str))
    requires
        len == input@.len(),
        end <= len,
    ensures
        parts.0@ == input@.take(end as int),
        parts.1@ == input@.skip(end as int),
{
    let head = input.substring_char(0, end);
    let tail = input.substring_char(end, len);
    proof {
        assert(input@.subrange(0, end as int) =~= input@.take(end as int));
        assert(input@.subrange(end as int, len as int) =~= input@.skip(end as int));
    }
    (head, tail)
}

/// Takes the whitespace at the start of `input`: space, tab, carriage return
/// and line feed. Returns what follows it, and the whitespace. Never fails.
pub fn parse_space(input: &str) -> (r: Result<(&str, &str), JsonError>)
    ensures
        r matches Ok((rest, space)) && (rest@, space@) == spec_space(input@),
{
    let chars = chars_of(input);
    let end = skip_whitespace(chars.as_slice(), 0);
    let parts = split(input, chars.len(), end);
    Ok((parts.1, parts.0))
}

/// Takes the keyword `true` or `false` at the start of `input`, in any
/// letter case. Fails with `UnexpectedToken` if neither stands there.
pub fn parse_bool(input: &str) -> (r: Result<(&str, bool), JsonError>)
    ensures
        match r {
            Ok((rest, b)) => with_rest(input@, spec_bool(input@, 0)) == Ok::<_, Failure>(
                (rest@, b),
            ),
            Err(e) => with_rest(input@, spec_bool(input@, 0)) == Err::<(Seq<char>, bool), _>(e@),
        },
{
    let chars = chars_of(input);
    proof {
        reveal_strlit("true");
        reveal_strlit("false");
    }
    match match_literal_tag(chars.as_slice(), 0, "true") {
        Ok(end) => {
            return Ok((split(input, chars.len(), end).1, true));
        },
        Err(_) => {},
    }
    match match_literal_tag(chars.as_slice(), 0, "false") {
        Ok(end) => Ok((split(input, chars.len(), end).1, false)),
        Err(e) => Err(e),
    }
}

/// Takes the numeric literal at the start of `input`: an optional minus
/// sign, an integer part, an optional fraction and an optional exponent.
/// Returns what follows it, and the literal as it is written. Fails with
/// `UnexpectedToken` where a digit was expected and none stands.
pub fn parse_num(input: &str) -> (r: Result<(&str, &str), JsonError>)
    ensures
        match r {
            Ok((rest, literal)) => spec_literal(input@) == Ok::<_, Failure>((rest@, literal@)),
            Err(e) => spec_literal(input@) == Err::<(Seq<char>, Seq<char>), _>(e@),
        },
{
    let chars = chars_of(input);
    match scan_number(chars.as_slice(), 0) {
        Ok(end) => {
            let parts = split(input, chars.len(), end);
            Ok((parts.1, parts.0))
        },
        Err(e) => Err(e),
    }
}

/// Takes the body of a string at the start of `input`, up to the first
/// quote that no backslash escapes or to the end of the input. Returns what
/// follows the body, and the body as it is written, escapes included. Fails
/// with `InvalidEscape` at an unsupported escape and with
/// `UnterminatedString` where the input ends after a backslash.
pub fn parse_str(input: &str) -> (r: Result<(&str, &str), JsonError>)
    ensures
        match r {
            Ok((rest, body)) => spec_raw_body(input@) == Ok::<_, Failure>((rest@, body@)),
            Err(e) => spec_raw_body(input@) == Err::<(Seq<char>, Seq<char>), _>(e@),
        },
{
    let chars = chars_of(input);
    match scan_string_body(chars.as_slice(), 0) {
        Ok((_, end)) => {
            let parts = split(input, chars.len(), end);
            Ok((parts.1, parts.0))
        },
        Err(e) => Err(e),
    }
}

/// Takes the quoted string at the start of `input` and returns what follows
/// it, and the string value with its escapes decoded. Fails with
/// `UnexpectedToken` if no quote stands first, with `UnterminatedString` if
/// the closing quote is missing and with `InvalidEscape` at an unsupported
/// escape.
pub fn parse_string(input: &str) -> (r: Result<(&str, Value), JsonError>)
    ensures
        match r {
            Ok((rest, value)) => value matches Value::Str(text) && with_rest(
                input@,
                spec_quoted(input@, 0),
            ) == Ok::<_, Failure>((rest@, text@)),
            Err(e) => with_rest(input@, spec_quoted(input@, 0)) == Err::<(Seq<char>, Seq<char>), _>(
                e@,
            ),
        },
{
    let chars = chars_of(input);
    match scan_quoted_string(chars.as_slice(), 0) {
        Ok((text, end)) => Ok((split(input, chars.len(), end).1, Value::Str(text))),
        Err(e) => Err(e),
    }
}

/// Takes the array at the start of `input`, with the whitespace around it,
/// and returns what follows, and the elements in order.
pub fn parse_array(input: &str) -> (r: Result<(&str, Vec<Value>), JsonError>)
    ensures
        match r {
            Ok((rest, items)) => all_wf(items@) && with_rest(
                input@,
                spec_array(input@, 0, MAX_DEPTH as nat),
            ) == Ok::<_, Failure>((rest@, items_view(items@))),
            Err(e) => with_rest(input@, spec_array(input@, 0, MAX_DEPTH as nat)) == Err::<
                (Seq<char>, Seq<Json>),
                _,
            >(e@),
        },
{
    let chars = chars_of(input);
    let open = skip_whitespace(chars.as_slice(), 0);
    if !char_at(chars.as_slice(), open, '[') {
        return Err(JsonError::UnexpectedToken(open));
    }
    match parse_elements_at(chars.as_slice(), open + 1, MAX_DEPTH - 1) {
        Ok((items, end)) => {
            let stop = skip_whitespace(chars.as_slice(), end);
            Ok((split(input, chars.len(), stop).1, items))
        },
        Err(e) => Err(e),
    }
}

/// Takes the object at the start of `input`, with the whitespace around it,
/// and returns what follows, and the members. Each name is listed once.
pub fn parse_obj(input: &str) -> (r: Result<(&str, Vec<(String, Value)>), JsonError>)
    ensures
        match r {
            Ok((rest, entries)) => entries_wf(entries@) && with_rest(
                input@,
                spec_object(input@, 0, MAX_DEPTH as nat),
            ) == Ok::<_, Failure>((rest@, members_view(entries@))),
            Err(e) => with_rest(input@, spec_object(input@, 0, MAX_DEPTH as nat)) == Err::<
                (Seq<char>, Map<Seq<char>, Json>),
                _,
            >(e@),
        },
{
    let chars = chars_of(input);
    let open = skip_whitespace(chars.as_slice(), 0);
    if !char_at(chars.as_slice(), open, '{') {
        return Err(JsonError::UnexpectedToken(open));
    }
    match parse_members_at(chars.as_slice(), open + 1, MAX_DEPTH - 1) {
        Ok((entries, end)) => {
            let stop = skip_whitespace(chars.as_slice(), end);
            Ok((split(input, chars.len(), stop).1, entries))
        },
        Err(e) => Err(e),
    }
}

/// Takes the member at the start of `input`: a quoted name, a colon and a
/// value, with whitespace around each. Returns what follows, the name as a
/// string value and the value.
pub fn parse_kv(input: &str) -> (r: Result<(&str, (Value, Value)), JsonError>)
    ensures
        match r {
            Ok((rest, (name, value))) => name matches Value::Str(text) && value.wf() && with_rest(
                input@,
                spec_member(input@, 0, MAX_DEPTH as nat),
            ) == Ok::<_, Failure>((rest@, (text@, value@))),
            Err(e) => with_rest(input@, spec_member(input@, 0, MAX_DEPTH as nat)) == Err::<
                (Seq<char>, (Seq<char>, Json)),
                _,
            >(e@),
        },
{
    let chars = chars_of(input);
    match parse_member_at(chars.as_slice(), 0, MAX_DEPTH) {
        Ok((member, end)) => Ok(
            (split(input, chars.len(), end).1, (Value::Str(member.0), member.1)),
        ),
        Err(e) => Err(e),
    }
}

/// Takes the value at the start of `input`, with the whitespace around it,
/// and returns what follows, and the value.
pub fn parse_value(input: &str) -> (r: Result<(&str, Value), JsonError>)
    ensures
        match r {
            Ok((rest, value)) => value.wf() && with_rest(
                input@,
                spec_value(input@, 0, MAX_DEPTH as nat),
            ) == Ok::<_, Failure>((rest@, value@)),
            Err(e) => with_rest(input@, spec_value(input@, 0, MAX_DEPTH as nat)) == Err::<
                (Seq<char>, Json),
                _,
            >(e@),
        },
{
    let chars = chars_of(input);
    match parse_value_at(chars.as_slice(), 0, MAX_DEPTH) {
        Ok((value, end)) => Ok((split(input, chars.len(), end).1, value)),
        Err(e) => Err(e),
    }
}

/// Wraps a parser so that the whitespace before and after what it
/// recognises is taken too. The wrapped parser is handed the text without
/// its leading whitespace; its error is passed on as it is, with a position
/// that counts from there.
pub fn consume_space<'a, O, F>(f: F) -> (g: impl Fn(&'a str) -> Result<(&'a str, O), JsonError>)
    where
        F: Fn(&'a str) -> Result<(&'a str, O), JsonError>,
    requires
        forall|t: &'a str| call_requires(f, (t,)),
    ensures
        forall|input: &'a str| call_requires(g, (input,)),
        forall|input: &'a str, r: Result<(&'a str, O), JsonError>|
            call_ensures(g, (input,), r) ==> spaced(f, input, r),
{
    move |input: &'a str| -> (r: Result<(&'a str, O), JsonError>)
        ensures
            spaced(f, input, r),
    {
        let chars = chars_of(input);
        let start = skip_whitespace(chars.as_slice(), 0);
        let trimmed = split(input, chars.len(), start).1;
        match f(trimmed) {
            Ok((mid, item)) => {
                let after = chars_of(mid);
                let stop = skip_whitespace(after.as_slice(), 0);
                Ok((split(mid, after.len(), stop).1, item))
            },
            Err(e) => Err(e),
        }
    }
}

/// Whether `r` is `out` with the whitespace at the start of its rest taken
/// away.
pub open spec fn rest_trimmed<O>(
    out: Result<(&str, O), JsonError>,
    r: Result<(&str, O), JsonError>,
) -> bool {
    match (out, r) {
        (Ok((mid, item)), Ok((rest, same))) => same == item && rest@ == spec_space(mid@).0,
        (Err(e), Err(same)) => same == e,
        _ => false,
    }
}

/// What the wrapped form of `f` may return on `input`: what `f` may return
/// on `input` without its leading whitespace, with the rest trimmed.
pub open spec fn spaced<'a, O, F: Fn(&'a str) -> Result<(&'a str, O), JsonError>>(
    f: F,
    input: &'a str,
    r: Result<(&'a str, O), JsonError>,
) -> bool {
    exists|trimmed: &'a str, out: Result<(&'a str, O), JsonError>|
        trimmed@ == spec_space(input@).0 && #[trigger] call_ensures(f, (trimmed,), out)
            && rest_trimmed(out, r)
}

/// A text together with the value that it denotes.
#[derive(Debug)]
pub struct JsonParser<'a> {
    pub input: &'a str,
    pub output: Value,
}

impl<'a> JsonParser<'a> {
    /// Parses a text that is known to be a JSON document and keeps it with
    /// its value.
    pub fn new(json: &'a str) -> (p: Self)
        requires
            spec_document(json@) is Ok,
        ensures
            p.input@ == json@,
            spec_document(json@) == Ok::<Json, Failure>(p.output@),
            p.output.wf(),
    {
        match JsonParser::parse(json) {
            Ok(output) => JsonParser { input: json, output },
            Err(_) => vstd::pervasive::unreached(),
        }
    }

    /// Parses a whole text: one value, with whitespace around it and
    /// nothing else. Fails with the error of the value, or with
    /// `TrailingInput` at the first character after the value.
    pub fn parse(json: &str) -> (r: Result<Value, JsonError>)
        ensures
            match r {
                Ok(value) => value.wf() && spec_document(json@) == Ok::<Json, Failure>(value@),
                Err(e) => spec_document(json@) == Err::<Json, Failure>(e@),
            },
    {
        let chars = chars_of(json);
        match parse_value_at(chars.as_slice(), 0, MAX_DEPTH) {
            Ok((value, end)) => {
                if end == chars.len() {
                    Ok(value)
                } else {
                    Err(JsonError::TrailingInput(end))
                }
            },
            Err(e) => Err(e),
        }
    }
}

} // verus!
