//! The lexical primitives: whitespace, keywords, numbers and quoted strings,
//! each scanned from a place in a sequence of characters.

use crate::errors::{ErrorKind, Failure, JsonError};
use crate::grammar::{
    exponent_end, fraction_end, has_char, has_digit, has_tag, integer_end, is_digit, is_space,
    prepend, same_letter, skip_digits, skip_space, spec_body, spec_number, spec_quoted, unescape,
};
use vstd::prelude::*;

verus! {

/// Whether `c` is a whitespace character.
pub fn is_space_char(c: char) -> (b: bool)
    ensures
        b == is_space(c),
{
    c == ' ' || c == '\t' || c == '\r' || c == '\n'
}

/// Whether `c` is a decimal digit.
pub fn is_digit_char(c: char) -> (b: bool)
    ensures
        b == is_digit(c),
{
    '0' <= c && c <= '9'
}

/// Whether `a` and `b` are the same character, or the same ASCII letter in
/// different case.
pub fn same_letter_char(a: char, b: char) -> (r: bool)
    ensures
        r == same_letter(a, b),
{
    if a == b {
        true
    } else if 'A' <= a && a <= 'Z' {
        b as u32 == a as u32 + 32
    } else if 'A' <= b && b <= 'Z' {
        a as u32 == b as u32 + 32
    } else {
        false
    }
}

/// Skips the whitespace that starts at `pos` and returns the index of the
/// first character after it.
pub fn skip_whitespace(input: &[char], pos: usize) -> (end: usize)
    requires
        pos <= input.len(),
    ensures
        end == skip_space(input@, pos as int),
        pos <= end <= input.len(),
{
    let mut end: usize = pos;
    while end < input.len() && is_space_char(input[end])
        invariant
            pos <= end <= input.len(),
            skip_space(input@, pos as int) == skip_space(input@, end as int),
        decreases input.len() - end,
    {
        end = end + 1;
    }
    end
}

/// Skips the digits that start at `pos` and returns the index of the first
/// character after them.
pub fn skip_digit_run(input: &[char], pos: usize) -> (end: usize)
    requires
        pos <= input.len(),
    ensures
        end == skip_digits(input@, pos as int),
        pos <= end <= input.len(),
{
    let mut end: usize = pos;
    while end < input.len() && is_digit_char(input[end])
        invariant
            pos <= end <= input.len(),
            skip_digits(input@, pos as int) == skip_digits(input@, end as int),
        decreases input.len() - end,
    {
        end = end + 1;
    }
    end
}

/// Matches the keyword `tag` at `pos`, letter case aside, and returns the
/// index after it. Fails with `UnexpectedToken` at `pos` if the input does
/// not spell the keyword there.
pub fn match_literal_tag(input: &[char], pos: usize, tag: &str) -> (r: Result<usize, JsonError>)
    requires
        pos <= input.len(),
    ensures
        match r {
            Ok(end) => has_tag(input@, pos as int, tag@) && end == pos + tag@.len(),
            Err(e) => !has_tag(input@, pos as int, tag@) && e@ == (Failure {
                kind: ErrorKind::UnexpectedToken,
                at: pos as int,
            }),
        },
{
    let n = tag.unicode_len();
    if n > input.len() - pos {
        return Err(JsonError::UnexpectedToken(pos));
    }
    let mut i: usize = 0;
    while i < n
        invariant
            i <= n,
            n == tag@.len(),
            pos + n <= input.len(),
            forall|k: int| 0 <= k < i ==> same_letter(#[trigger] input@[pos + k], tag@[k]),
        decreases n - i,
    {
        if !same_letter_char(input[pos + i], tag.get_char(i)) {
            return Err(JsonError::UnexpectedToken(pos));
        }
        i = i + 1;
    }
    Ok(pos + n)
}

/// Whether `input` has the character `c` at index `i`.
pub fn char_at(input: &[char], i: usize, c: char) -> (b: bool)
    ensures
        b == has_char(input@, i as int, c),
{
    i < input.len() && input[i] == c
}

/// Whether `input` has a digit at index `i`.
pub fn digit_at(input: &[char], i: usize) -> (b: bool)
    ensures
        b == has_digit(input@, i as int),
{
    i < input.len() && is_digit_char(input[i])
}

/// Scans the numeric literal at `pos` and returns the index at which it
/// ends. Fails with `UnexpectedToken` where a digit was expected and none
/// stands.
pub fn scan_number(input: &[char], pos: usize) -> (r: Result<usize, JsonError>)
    requires
        pos <= input.len(),
    ensures
        match r {
            Ok(end) => pos < end <= input.len() && spec_number(input@, pos as int) == Ok::<
                int,
                Failure,
            >(end as int),
            Err(e) => spec_number(input@, pos as int) == Err::<int, Failure>(e@),
        },
{
    let first: usize = if char_at(input, pos, '-') {
        pos + 1
    } else {
        pos
    };
    if !digit_at(input, first) {
        return Err(JsonError::UnexpectedToken(first));
    }
    let integer: usize = if input[first] == '0' {
        first + 1
    } else {
        skip_digit_run(input, first + 1)
    };
    assert(integer == integer_end(input@, first as int));
    let fraction: usize = if char_at(input, integer, '.') && digit_at(input, integer + 1) {
        skip_digit_run(input, integer + 1)
    } else {
        integer
    };
    assert(fraction == fraction_end(input@, integer as int));
    let mut end: usize = fraction;
    if char_at(input, fraction, 'e') || char_at(input, fraction, 'E') {
        let digits: usize = if char_at(input, fraction + 1, '+') || char_at(
            input,
            fraction + 1,
            '-',
        ) {
            fraction + 2
        } else {
            fraction + 1
        };
        if digit_at(input, digits) {
            end = skip_digit_run(input, digits);
        }
    }
    assert(end == exponent_end(input@, fraction as int));
    Ok(end)
}

/// Scans the body of a string from `pos` on and returns the decoded text
/// and the index at which the body stops: at the first quote that no
/// backslash escapes, or at the end of the input. Fails with
/// `InvalidEscape` at a backslash that is followed by anything but a quote,
/// a backslash or `n`, and with `UnterminatedString` where the input ends
/// after a backslash.
pub fn scan_string_body(input: &[char], pos: usize) -> (r: Result<(String, usize), JsonError>)
    requires
        pos <= input.len(),
    ensures
        match r {
            Ok((text, end)) => spec_body(input@, pos as int) == Ok::<(Seq<char>, int), Failure>(
                (text@, end as int),
            ) && pos <= end <= input.len(),
            Err(e) => spec_body(input@, pos as int) == Err::<(Seq<char>, int), Failure>(e@),
        },
{
    let mut text = String::new();
    let mut i: usize = pos;
    while i < input.len() && input[i] != '"'
        invariant
            pos <= i <= input.len(),
            spec_body(input@, pos as int) == prepend(text@, spec_body(input@, i as int)),
        decreases input.len() - i,
    {
        let ghost before = text@;
        let c = input[i];
        if c != '\\' {
            text.push(c);
            proof {
                let rest = spec_body(input@, i + 1);
                if let Ok((tail, end)) = rest {
                    assert(before + (seq![c] + tail) =~= before.push(c) + tail);
                }
            }
            i = i + 1;
        } else if i + 1 >= input.len() {
            return Err(JsonError::UnterminatedString(i + 1));
        } else {
            let d = input[i + 1];
            if d == '"' || d == '\\' {
                text.push(d);
            } else if d == 'n' {
                text.push('\n');
            } else {
                return Err(JsonError::InvalidEscape(i));
            }
            proof {
                let rest = spec_body(input@, i + 2);
                if let Ok((tail, end)) = rest {
                    assert(before + (seq![unescape(d)] + tail) =~= before.push(unescape(d)) + tail);
                }
            }
            i = i + 2;
        }
    }
    proof {
        assert(text@ + Seq::<char>::empty() =~= text@);
    }
    Ok((text, i))
}

/// Scans the quoted string at `pos` and returns the decoded text and the
/// index after the closing quote. Fails with `UnexpectedToken` if no quote
/// stands at `pos`, with `UnterminatedString` if the input ends before the
/// closing quote, and with `InvalidEscape` at an unsupported escape.
pub fn scan_quoted_string(input: &[char], pos: usize) -> (r: Result<(String, usize), JsonError>)
    requires
        pos <= input.len(),
    ensures
        match r {
            Ok((text, end)) => spec_quoted(input@, pos as int) == Ok::<(Seq<char>, int), Failure>(
                (text@, end as int),
            ) && pos < end <= input.len(),
            Err(e) => spec_quoted(input@, pos as int) == Err::<(Seq<char>, int), Failure>(e@),
        },
{
    if !char_at(input, pos, '"') {
        return Err(JsonError::UnexpectedToken(pos));
    }
    match scan_string_body(input, pos + 1) {
        Ok((text, end)) => {
            if char_at(input, end, '"') {
                Ok((text, end + 1))
            } else {
                Err(JsonError::UnterminatedString(end))
            }
        },
        Err(e) => Err(e),
    }
}

} // verus!
