//! Whitespace around a value changes nothing of the value.

use crate::context::{law_value_depends_on_what_follows, lemma_body_bounds, same_from};
use crate::errors::Failure;
use crate::grammar::{
    all_space, exponent_end, fraction_end, has_char, has_digit, has_tag, integer_end, is_space,
    moved, same_letter, skip_digits, skip_space, spec_bare_value, spec_body, spec_document,
    spec_elements, spec_keyword, spec_member, spec_members, spec_number, spec_quoted, spec_value,
    unfold_bare_value, unfold_elements, unfold_member, unfold_members, unfold_value, MAX_DEPTH,
    Scan,
};
use crate::laws::{law_scanned_number_is_literal, law_skip_space};
use crate::value::Json;
use vstd::prelude::*;

verus! {

/// Where a scan that ended at `end` in a text of `n` characters ends once
/// whitespace is appended and the text has `m` characters: where it did, or,
/// if it had reached the end of the text, at the new end.
pub open spec fn end_after_padding(end: int, n: int, m: int) -> int {
    if end < n {
        end
    } else {
        m
    }
}

/// Whether every character of `tag` is a small ASCII letter.
pub open spec fn small_letters(tag: Seq<char>) -> bool {
    forall|i: int| 0 <= i < tag.len() ==> 'a' <= #[trigger] tag[i] <= 'z'
}

/// The characters of a text with whitespace appended: those of the text,
/// then whitespace.
pub proof fn lemma_padded_chars(s: Seq<char>, ws: Seq<char>, pos: int)
    requires
        all_space(ws),
        0 <= pos,
    ensures
        pos < s.len() ==> (s + ws)[pos] == s[pos],
        s.len() <= pos < (s + ws).len() ==> is_space((s + ws)[pos]),
        has_digit(s + ws, pos) == has_digit(s, pos),
        forall|c: char| !is_space(c) ==> has_char(s + ws, pos, c) == has_char(s, pos, c),
{
    if s.len() <= pos < (s + ws).len() {
        assert((s + ws)[pos] == ws[pos - s.len()]);
    }
}

/// Appended whitespace does not change where a run of digits ends.
pub proof fn lemma_padded_skip_digits(s: Seq<char>, ws: Seq<char>, pos: int)
    requires
        all_space(ws),
        0 <= pos,
    ensures
        skip_digits(s + ws, pos) == skip_digits(s, pos),
        pos <= skip_digits(s, pos),
    decreases s.len() - pos,
{
    lemma_padded_chars(s, ws, pos);
    if has_digit(s, pos) {
        lemma_padded_skip_digits(s, ws, pos + 1);
    }
}

/// Whitespace that reaches the end of the text is skipped up to the end.
pub proof fn lemma_skip_to_end(t: Seq<char>, pos: int)
    requires
        0 <= pos <= t.len(),
        forall|i: int| pos <= i < t.len() ==> is_space(#[trigger] t[i]),
    ensures
        skip_space(t, pos) == t.len(),
    decreases t.len() - pos,
{
    if pos < t.len() {
        assert(is_space(t[pos]));
        lemma_skip_to_end(t, pos + 1);
    }
}

/// Appended whitespace is skipped together with the whitespace that it
/// follows.
pub proof fn lemma_padded_skip_space(s: Seq<char>, ws: Seq<char>, pos: int)
    requires
        all_space(ws),
        0 <= pos <= s.len(),
    ensures
        pos <= skip_space(s, pos) <= s.len(),
        skip_space(s + ws, pos) == end_after_padding(
            skip_space(s, pos),
            s.len() as int,
            (s + ws).len() as int,
        ),
    decreases s.len() - pos,
{
    lemma_padded_chars(s, ws, pos);
    if pos < s.len() {
        if is_space(s[pos]) {
            lemma_padded_skip_space(s, ws, pos + 1);
        }
    } else {
        assert forall|i: int| pos <= i < (s + ws).len() implies is_space(#[trigger] (s + ws)[i]) by {
            lemma_padded_chars(s, ws, i);
        }
        lemma_skip_to_end(s + ws, pos);
    }
}

/// Appended whitespace spells no keyword and completes none.
pub proof fn lemma_padded_tag(s: Seq<char>, ws: Seq<char>, pos: int, tag: Seq<char>)
    requires
        all_space(ws),
        0 <= pos,
        tag.len() > 0,
        small_letters(tag),
    ensures
        has_tag(s + ws, pos, tag) == has_tag(s, pos, tag),
{
    let t = s + ws;
    if has_tag(s, pos, tag) {
        assert forall|i: int| 0 <= i < tag.len() implies same_letter(#[trigger] t[pos + i], tag[i]) by {
            assert(t[pos + i] == s[pos + i]);
        }
    }
    if has_tag(t, pos, tag) {
        if pos + tag.len() > s.len() {
            let i = if pos >= s.len() {
                0int
            } else {
                s.len() - pos
            };
            lemma_padded_chars(s, ws, pos + i);
            assert(same_letter(t[pos + i], tag[i]));
            assert('a' <= tag[i] <= 'z');
            assert(false);
        }
        assert forall|i: int| 0 <= i < tag.len() implies same_letter(#[trigger] s[pos + i], tag[i]) by {
            assert(t[pos + i] == s[pos + i]);
            assert(same_letter(t[pos + i], tag[i]));
        }
    }
}

/// Appended whitespace does not change the keyword at a place.
pub proof fn lemma_padded_keyword(s: Seq<char>, ws: Seq<char>, pos: int)
    requires
        all_space(ws),
        0 <= pos,
    ensures
        spec_keyword(s + ws, pos) == spec_keyword(s, pos),
        spec_keyword(s, pos) matches Ok((_, end)) ==> pos < end <= s.len(),
{
    reveal_strlit("true");
    reveal_strlit("false");
    reveal_strlit("null");
    lemma_padded_tag(s, ws, pos, "true"@);
    lemma_padded_tag(s, ws, pos, "false"@);
    lemma_padded_tag(s, ws, pos, "null"@);
}

/// Appended whitespace does not change the number at a place.
pub proof fn lemma_padded_number(s: Seq<char>, ws: Seq<char>, pos: int)
    requires
        all_space(ws),
        0 <= pos,
    ensures
        spec_number(s + ws, pos) == spec_number(s, pos),
{
    let t = s + ws;
    lemma_padded_chars(s, ws, pos);
    let first = if has_char(s, pos, '-') {
        pos + 1
    } else {
        pos
    };
    lemma_padded_chars(s, ws, first);
    if has_digit(s, first) {
        lemma_padded_skip_digits(s, ws, first);
        let whole = integer_end(s, first);
        assert(integer_end(t, first) == whole);
        lemma_padded_chars(s, ws, whole);
        lemma_padded_chars(s, ws, whole + 1);
        lemma_padded_skip_digits(s, ws, whole + 1);
        let frac = fraction_end(s, whole);
        assert(fraction_end(t, whole) == frac);
        lemma_padded_chars(s, ws, frac);
        lemma_padded_chars(s, ws, frac + 1);
        lemma_padded_chars(s, ws, frac + 2);
        lemma_padded_skip_digits(s, ws, frac + 1);
        lemma_padded_skip_digits(s, ws, frac + 2);
        assert(exponent_end(t, frac) == exponent_end(s, frac));
    }
}

/// A string body that runs into whitespace at the end of the text runs to
/// the end.
pub proof fn lemma_body_over_space(t: Seq<char>, pos: int)
    requires
        0 <= pos <= t.len(),
        forall|i: int| pos <= i < t.len() ==> is_space(#[trigger] t[i]),
    ensures
        spec_body(t, pos) matches Ok((_, end)) && end == t.len(),
    decreases t.len() - pos,
{
    if pos < t.len() {
        assert(is_space(t[pos]));
        lemma_body_over_space(t, pos + 1);
    }
}

/// What appended whitespace does to a string body: a body that stopped
/// before the end of the text is unchanged, one that ran to the end now
/// runs on or fails, and one that failed still fails.
pub open spec fn body_padded(before: Scan<Seq<char>>, after: Scan<Seq<char>>, n: int, m: int) -> bool {
    match before {
        Ok((text, end)) => end <= n && if end < n {
            after == before
        } else {
            after matches Ok((_, stop)) ==> stop >= m
        },
        Err(_) => after is Err,
    }
}

/// Appended whitespace and the string body at a place.
pub proof fn lemma_padded_body(s: Seq<char>, ws: Seq<char>, pos: int)
    requires
        all_space(ws),
        0 <= pos <= s.len(),
    ensures
        body_padded(spec_body(s, pos), spec_body(s + ws, pos), s.len() as int, (s + ws).len() as int),
    decreases s.len() - pos,
{
    let t = s + ws;
    lemma_padded_chars(s, ws, pos);
    if pos >= s.len() {
        assert forall|i: int| pos <= i < t.len() implies is_space(#[trigger] t[i]) by {
            lemma_padded_chars(s, ws, i);
        }
        lemma_body_over_space(t, pos);
    } else if s[pos] != '"' {
        if s[pos] != '\\' {
            lemma_padded_body(s, ws, pos + 1);
        } else {
            lemma_padded_chars(s, ws, pos + 1);
            if pos + 1 < s.len() {
                if s[pos + 1] == '"' || s[pos + 1] == '\\' || s[pos + 1] == 'n' {
                    lemma_padded_body(s, ws, pos + 2);
                }
            }
        }
    }
}

/// What appended whitespace does to a scan that does not take whitespace
/// at its end: nothing to what it recognised, and a failure stays a
/// failure.
pub open spec fn kept<T>(before: Scan<T>, after: Scan<T>, pos: int, n: int) -> bool {
    match before {
        Ok((_, end)) => pos < end <= n && after == before,
        Err(_) => after is Err,
    }
}

/// What appended whitespace does to a value with the whitespace after it:
/// the value is the same, and where it had reached the end of the text it
/// reaches the new end.
pub open spec fn value_padded(before: Scan<Json>, after: Scan<Json>, pos: int, n: int, m: int) -> bool {
    match before {
        Ok((value, end)) => pos <= end <= n && after == Ok::<_, Failure>(
            (value, end_after_padding(end, n, m)),
        ),
        Err(_) => after is Err,
    }
}

/// Appended whitespace and the quoted string at a place.
pub proof fn lemma_padded_quoted(s: Seq<char>, ws: Seq<char>, pos: int)
    requires
        all_space(ws),
        0 <= pos <= s.len(),
    ensures
        kept(spec_quoted(s, pos), spec_quoted(s + ws, pos), pos, s.len() as int),
{
    lemma_padded_chars(s, ws, pos);
    if has_char(s, pos, '"') {
        lemma_padded_body(s, ws, pos + 1);
        lemma_body_bounds(s, pos + 1);
        if let Ok((text, end)) = spec_body(s, pos + 1) {
            lemma_padded_chars(s, ws, end);
        }
        if let Ok((text, stop)) = spec_body(s + ws, pos + 1) {
            lemma_padded_chars(s, ws, stop);
        }
    }
}

/// Appended whitespace and the value at a place.
pub proof fn lemma_padded_value(s: Seq<char>, ws: Seq<char>, pos: int, depth: nat)
    requires
        all_space(ws),
        0 <= pos <= s.len(),
    ensures
        value_padded(
            spec_value(s, pos, depth),
            spec_value(s + ws, pos, depth),
            pos,
            s.len() as int,
            (s + ws).len() as int,
        ),
    decreases depth, 1int, s.len() - pos,
{
    unfold_value(s, pos, depth);
    unfold_value(s + ws, pos, depth);
    let t = s + ws;
    lemma_padded_skip_space(s, ws, pos);
    let start = skip_space(s, pos);
    if start < s.len() {
        lemma_padded_bare_value(s, ws, start, depth);
        if let Ok((value, end)) = spec_bare_value(s, start, depth) {
            lemma_padded_skip_space(s, ws, end);
        }
    } else {
        lemma_padded_bare_value(s, ws, start, depth);
        let m = t.len() as int;
        lemma_nothing_at_end(s, start, depth);
        lemma_nothing_at_end(t, m, depth);
    }
}

/// Nothing stands at or after the end of a text.
pub proof fn lemma_nothing_at_end(s: Seq<char>, pos: int, depth: nat)
    requires
        pos >= s.len(),
    ensures
        spec_bare_value(s, pos, depth) is Err,
{
    unfold_bare_value(s, pos, depth);
    reveal_strlit("true");
    reveal_strlit("false");
    reveal_strlit("null");
}

/// Appended whitespace and the bare value at a place.
pub proof fn lemma_padded_bare_value(s: Seq<char>, ws: Seq<char>, pos: int, depth: nat)
    requires
        all_space(ws),
        0 <= pos <= s.len(),
    ensures
        kept(spec_bare_value(s, pos, depth), spec_bare_value(s + ws, pos, depth), pos, s.len() as int),
    decreases depth, 0int, s.len() - pos,
{
    unfold_bare_value(s, pos, depth);
    unfold_bare_value(s + ws, pos, depth);
    let t = s + ws;
    lemma_padded_chars(s, ws, pos);
    if has_char(s, pos, '-') || has_digit(s, pos) {
        lemma_padded_number(s, ws, pos);
        if let Ok(end) = spec_number(s, pos) {
            law_scanned_number_is_literal(s, pos);
            assert(t.subrange(pos, end) =~= s.subrange(pos, end));
        }
    } else if has_char(s, pos, '"') {
        lemma_padded_quoted(s, ws, pos);
    } else if has_char(s, pos, '[') {
        if depth > 0 {
            lemma_padded_elements(s, ws, pos + 1, (depth - 1) as nat);
        }
    } else if has_char(s, pos, '{') {
        if depth > 0 {
            lemma_padded_members(s, ws, pos + 1, (depth - 1) as nat);
        }
    } else {
        lemma_padded_keyword(s, ws, pos);
    }
}

/// Appended whitespace and the elements at a place.
pub proof fn lemma_padded_elements(s: Seq<char>, ws: Seq<char>, pos: int, depth: nat)
    requires
        all_space(ws),
        0 <= pos <= s.len(),
    ensures
        kept(spec_elements(s, pos, depth), spec_elements(s + ws, pos, depth), pos, s.len() as int),
    decreases depth, 3int, s.len() - pos,
{
    unfold_elements(s, pos, depth);
    unfold_elements(s + ws, pos, depth);
    lemma_padded_skip_space(s, ws, pos);
    let first = skip_space(s, pos);
    lemma_padded_chars(s, ws, first);
    if first < s.len() && s[first] != ']' {
        lemma_padded_value(s, ws, first, depth);
        if let Ok((value, end)) = spec_value(s, first, depth) {
            lemma_padded_chars(s, ws, end);
            if end < s.len() && s[end] == ',' {
                lemma_padded_elements(s, ws, end + 1, depth);
            }
        }
    }
}

/// Appended whitespace and the member at a place.
pub proof fn lemma_padded_member(s: Seq<char>, ws: Seq<char>, pos: int, depth: nat)
    requires
        all_space(ws),
        0 <= pos <= s.len(),
    ensures
        match spec_member(s, pos, depth) {
            Ok((member, end)) => pos <= end <= s.len() && spec_member(s + ws, pos, depth) == Ok::<
                _,
                Failure,
            >((member, end_after_padding(end, s.len() as int, (s + ws).len() as int))),
            Err(_) => spec_member(s + ws, pos, depth) is Err,
        },
    decreases depth, 2int, s.len() - pos,
{
    unfold_member(s, pos, depth);
    unfold_member(s + ws, pos, depth);
    let t = s + ws;
    lemma_padded_skip_space(s, ws, pos);
    let start = skip_space(s, pos);
    lemma_padded_chars(s, ws, start);
    if start < s.len() {
        lemma_padded_quoted(s, ws, start);
        if let Ok((name, name_end)) = spec_quoted(s, start) {
            lemma_padded_skip_space(s, ws, name_end);
            let colon = skip_space(s, name_end);
            lemma_padded_chars(s, ws, colon);
            lemma_padded_chars(s, ws, t.len() as int);
            if has_char(s, colon, ':') {
                lemma_padded_value(s, ws, colon + 1, depth);
            }
        }
    } else {
        lemma_padded_chars(s, ws, t.len() as int);
    }
}

/// Appended whitespace and the members at a place.
pub proof fn lemma_padded_members(s: Seq<char>, ws: Seq<char>, pos: int, depth: nat)
    requires
        all_space(ws),
        0 <= pos <= s.len(),
    ensures
        kept(spec_members(s, pos, depth), spec_members(s + ws, pos, depth), pos, s.len() as int),
    decreases depth, 3int, s.len() - pos,
{
    unfold_members(s, pos, depth);
    unfold_members(s + ws, pos, depth);
    lemma_padded_skip_space(s, ws, pos);
    let first = skip_space(s, pos);
    lemma_padded_chars(s, ws, first);
    if first < s.len() && s[first] != '}' {
        lemma_padded_member(s, ws, first, depth);
        if let Ok((member, end)) = spec_member(s, first, depth) {
            lemma_padded_chars(s, ws, end);
            if end < s.len() && s[end] == ',' {
                lemma_padded_members(s, ws, end + 1, depth);
            }
        }
    }
}

/// Whitespace after a document changes nothing of its value, and makes no
/// document of a text that is none.
pub proof fn law_whitespace_after(s: Seq<char>, ws: Seq<char>)
    requires
        all_space(ws),
    ensures
        spec_document(s) is Ok ==> spec_document(s + ws) == spec_document(s),
        spec_document(s) is Err ==> spec_document(s + ws) is Err,
{
    lemma_padded_value(s, ws, 0, MAX_DEPTH as nat);
}

/// Whitespace before a document changes nothing of its value; a failure is
/// the same failure, as many characters further on as were put in front.
pub proof fn law_whitespace_before(ws: Seq<char>, s: Seq<char>)
    requires
        all_space(ws),
    ensures
        spec_document(ws + s) == match spec_document(s) {
            Ok(value) => Ok(value),
            Err(f) => Err(moved(f, ws.len() as int)),
        },
{
    unfold_value(ws + s, 0, MAX_DEPTH as nat);
    unfold_value(ws + s, ws.len() as int, MAX_DEPTH as nat);
    let t = ws + s;
    let k = ws.len() as int;
    assert(same_from(t, s, 0, k)) by {
        reveal(same_from);
    }
    law_value_depends_on_what_follows(t, s, 0, k, 0, MAX_DEPTH as nat);
    law_skip_space(t, 0);
    law_skip_space(t, k);
    // The whitespace in front is skipped.
    assert(skip_space(t, 0) >= k) by {
        if skip_space(t, 0) < k {
            assert(t[skip_space(t, 0)] == ws[skip_space(t, 0)]);
        }
    }
    assert(skip_space(t, 0) == skip_space(t, k)) by {
        lemma_skip_from_within(t, 0, k);
    }
}

/// Skipping whitespace from a place inside a run of whitespace ends where
/// skipping from its start ends.
pub proof fn lemma_skip_from_within(t: Seq<char>, pos: int, mid: int)
    requires
        0 <= pos <= mid <= skip_space(t, pos),
        mid <= t.len(),
    ensures
        skip_space(t, mid) == skip_space(t, pos),
    decreases mid - pos,
{
    if pos < mid {
        if pos < t.len() && is_space(t[pos]) {
            lemma_skip_from_within(t, pos + 1, mid);
        }
    }
}

/// Whitespace around a document changes nothing of its value, and makes no
/// document of a text that is none.
pub proof fn law_whitespace_around(before: Seq<char>, s: Seq<char>, after: Seq<char>)
    requires
        all_space(before),
        all_space(after),
    ensures
        spec_document(s) is Ok ==> spec_document(before + s + after) == spec_document(s),
        spec_document(s) is Err ==> spec_document(before + s + after) is Err,
{
    law_whitespace_before(before, s);
    law_whitespace_after(before + s, after);
}

/// The value at a place is the value at the first character there that is
/// not whitespace.
pub proof fn law_value_skips_space(s: Seq<char>, pos: int, depth: nat)
    requires
        0 <= pos <= s.len(),
    ensures
        spec_value(s, pos, depth) == spec_value(s, skip_space(s, pos), depth),
{
    unfold_value(s, pos, depth);
    unfold_value(s, skip_space(s, pos), depth);
    law_skip_space(s, pos);
}

} // verus!
