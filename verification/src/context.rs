//! What is scanned at a place depends on the text from that place on, and
//! on nothing before it.

use crate::errors::Failure;
use crate::grammar::{
    exponent_end, fraction_end, has_char, has_digit, has_tag, integer_end, moved, same_letter,
    shifted, skip_digits, skip_space, spec_bare_value, spec_body, spec_elements, spec_keyword,
    spec_member, spec_members, spec_number, spec_quoted, spec_value, unfold_bare_value,
    unfold_elements, unfold_member, unfold_members, unfold_value,
};
use crate::laws::law_scanned_number_is_literal;
use crate::value::Json;
use vstd::prelude::*;

verus! {

/// Whether `a`, from index `from + k` on, holds what `b` holds from index
/// `from` on.
#[verifier::opaque]
pub open spec fn same_from(a: Seq<char>, b: Seq<char>, from: int, k: int) -> bool {
    &&& 0 <= from
    &&& 0 <= from + k
    &&& a.len() == b.len() + k
    &&& forall|i: int| from <= i < b.len() ==> a[i + k] == b[i]
}

/// The end of a numeric literal, moved `k` characters to the right.
pub open spec fn shifted_end(scan: Result<int, Failure>, k: int) -> Result<int, Failure> {
    match scan {
        Ok(end) => Ok(end + k),
        Err(f) => Err(moved(f, k)),
    }
}

/// The characters at corresponding places are the same.
pub proof fn lemma_same_chars(a: Seq<char>, b: Seq<char>, from: int, k: int, pos: int)
    requires
        same_from(a, b, from, k),
        from <= pos,
    ensures
        forall|c: char| has_char(a, pos + k, c) == has_char(b, pos, c),
        has_digit(a, pos + k) == has_digit(b, pos),
        pos < b.len() ==> a[pos + k] == b[pos],
        pos < b.len() <==> pos + k < a.len(),
{
    reveal(same_from);
    if pos < b.len() {
        assert(a[pos + k] == b[pos]);
    }
}

/// Whitespace is skipped alike at corresponding places.
pub proof fn lemma_same_skip_space(a: Seq<char>, b: Seq<char>, from: int, k: int, pos: int)
    requires
        same_from(a, b, from, k),
        from <= pos,
    ensures
        skip_space(a, pos + k) == skip_space(b, pos) + k,
        pos <= b.len() ==> pos <= skip_space(b, pos) <= b.len(),
        pos > b.len() ==> skip_space(b, pos) == pos,
    decreases b.len() - pos,
{
    reveal(same_from);
    lemma_same_chars(a, b, from, k, pos);
    if pos < b.len() {
        lemma_same_skip_space(a, b, from, k, pos + 1);
    }
}

/// Digits are skipped alike at corresponding places.
pub proof fn lemma_same_skip_digits(a: Seq<char>, b: Seq<char>, from: int, k: int, pos: int)
    requires
        same_from(a, b, from, k),
        from <= pos,
    ensures
        skip_digits(a, pos + k) == skip_digits(b, pos) + k,
        pos <= skip_digits(b, pos),
    decreases b.len() - pos,
{
    reveal(same_from);
    lemma_same_chars(a, b, from, k, pos);
    if pos < b.len() {
        lemma_same_skip_digits(a, b, from, k, pos + 1);
    }
}

/// A keyword is spelled at a place exactly if it is at the corresponding
/// place.
pub proof fn lemma_same_tag(a: Seq<char>, b: Seq<char>, from: int, k: int, pos: int, tag: Seq<char>)
    requires
        same_from(a, b, from, k),
        from <= pos,
    ensures
        has_tag(a, pos + k, tag) == has_tag(b, pos, tag),
{
    reveal(same_from);
    if pos + tag.len() <= b.len() {
        if has_tag(b, pos, tag) {
            assert forall|i: int| 0 <= i < tag.len() implies same_letter(
                #[trigger] a[(pos + k) + i],
                tag[i],
            ) by {
                assert(a[(pos + i) + k] == b[pos + i]);
                assert(same_letter(b[pos + i], tag[i]));
            }
        }
        if has_tag(a, pos + k, tag) {
            assert forall|i: int| 0 <= i < tag.len() implies same_letter(
                #[trigger] b[pos + i],
                tag[i],
            ) by {
                assert(a[(pos + i) + k] == b[pos + i]);
                assert(same_letter(a[(pos + k) + i], tag[i]));
            }
        }
    }
}

/// Numbers are scanned alike at corresponding places.
pub proof fn lemma_same_number(a: Seq<char>, b: Seq<char>, from: int, k: int, pos: int)
    requires
        same_from(a, b, from, k),
        from <= pos,
    ensures
        spec_number(a, pos + k) == shifted_end(spec_number(b, pos), k),
{
    reveal(same_from);
    lemma_same_chars(a, b, from, k, pos);
    let first = if has_char(b, pos, '-') {
        pos + 1
    } else {
        pos
    };
    lemma_same_chars(a, b, from, k, first);
    if has_digit(b, first) {
        lemma_same_skip_digits(a, b, from, k, first);
        let whole = integer_end(b, first);
        assert(integer_end(a, first + k) == whole + k);
        lemma_same_chars(a, b, from, k, whole);
        lemma_same_chars(a, b, from, k, whole + 1);
        lemma_same_skip_digits(a, b, from, k, whole + 1);
        let frac = fraction_end(b, whole);
        assert(fraction_end(a, whole + k) == frac + k);
        lemma_same_chars(a, b, from, k, frac);
        lemma_same_chars(a, b, from, k, frac + 1);
        lemma_same_chars(a, b, from, k, frac + 2);
        lemma_same_skip_digits(a, b, from, k, frac + 1);
        lemma_same_skip_digits(a, b, from, k, frac + 2);
        assert(exponent_end(a, frac + k) == exponent_end(b, frac) + k);
    }
}

/// String bodies are scanned alike at corresponding places.
pub proof fn lemma_same_body(a: Seq<char>, b: Seq<char>, from: int, k: int, pos: int)
    requires
        same_from(a, b, from, k),
        from <= pos,
    ensures
        spec_body(a, pos + k) == shifted(spec_body(b, pos), k),
    decreases b.len() - pos,
{
    reveal(same_from);
    lemma_same_chars(a, b, from, k, pos);
    if pos < b.len() && b[pos] != '"' {
        if b[pos] != '\\' {
            lemma_same_body(a, b, from, k, pos + 1);
        } else if pos + 1 < b.len() {
            lemma_same_chars(a, b, from, k, pos + 1);
            lemma_same_body(a, b, from, k, pos + 2);
        }
    }
}

/// Quoted strings are scanned alike at corresponding places.
pub proof fn lemma_same_quoted(a: Seq<char>, b: Seq<char>, from: int, k: int, pos: int)
    requires
        same_from(a, b, from, k),
        from <= pos,
    ensures
        spec_quoted(a, pos + k) == shifted(spec_quoted(b, pos), k),
        spec_quoted(b, pos) matches Ok((_, end)) ==> pos < end,
{
    reveal(same_from);
    lemma_same_chars(a, b, from, k, pos);
    if has_char(b, pos, '"') {
        lemma_same_body(a, b, from, k, pos + 1);
        lemma_body_bounds(b, pos + 1);
        if let Ok((text, end)) = spec_body(b, pos + 1) {
            lemma_same_chars(a, b, from, k, end);
        }
    }
}

/// A string body does not stop before it starts.
pub proof fn lemma_body_bounds(s: Seq<char>, pos: int)
    requires
        0 <= pos,
    ensures
        spec_body(s, pos) matches Ok((_, end)) ==> pos <= end,
    decreases s.len() - pos,
{
    if pos < s.len() && s[pos] != '"' {
        if s[pos] != '\\' {
            lemma_body_bounds(s, pos + 1);
        } else if pos + 1 < s.len() {
            lemma_body_bounds(s, pos + 2);
        }
    }
}

/// Keywords are scanned alike at corresponding places.
pub proof fn lemma_same_keyword(a: Seq<char>, b: Seq<char>, from: int, k: int, pos: int)
    requires
        same_from(a, b, from, k),
        from <= pos,
    ensures
        spec_keyword(a, pos + k) == shifted(spec_keyword(b, pos), k),
{
    reveal(same_from);
    lemma_same_tag(a, b, from, k, pos, "true"@);
    lemma_same_tag(a, b, from, k, pos, "false"@);
    lemma_same_tag(a, b, from, k, pos, "null"@);
}

/// Context independence: where one text holds from some place on what
/// another holds from a place `k` characters earlier, the values scanned at
/// corresponding places are the same, with every index moved by `k`.
pub proof fn law_value_depends_on_what_follows(
    a: Seq<char>,
    b: Seq<char>,
    from: int,
    k: int,
    pos: int,
    depth: nat,
)
    requires
        same_from(a, b, from, k),
        from <= pos,
    ensures
        spec_value(a, pos + k, depth) == shifted(spec_value(b, pos, depth), k),
        spec_value(b, pos, depth) matches Ok((_, end)) ==> pos <= end,
    decreases depth, 1int, b.len() - pos,
{
    unfold_value(a, pos + k, depth);
    unfold_value(b, pos, depth);
    reveal(same_from);
    lemma_same_skip_space(a, b, from, k, pos);
    let start = skip_space(b, pos);
    lemma_same_bare_value(a, b, from, k, start, depth);
    if let Ok((value, end)) = spec_bare_value(b, start, depth) {
        lemma_same_skip_space(a, b, from, k, end);
    }
}

/// Bare values are scanned alike at corresponding places.
pub proof fn lemma_same_bare_value(
    a: Seq<char>,
    b: Seq<char>,
    from: int,
    k: int,
    pos: int,
    depth: nat,
)
    requires
        same_from(a, b, from, k),
        from <= pos,
    ensures
        spec_bare_value(a, pos + k, depth) == shifted(spec_bare_value(b, pos, depth), k),
        spec_bare_value(b, pos, depth) matches Ok((_, end)) ==> pos < end,
    decreases depth, 0int, b.len() - pos,
{
    unfold_bare_value(a, pos + k, depth);
    unfold_bare_value(b, pos, depth);
    reveal(same_from);
    lemma_same_chars(a, b, from, k, pos);
    if has_char(b, pos, '-') || has_digit(b, pos) {
        lemma_same_number(a, b, from, k, pos);
        if let Ok(end) = spec_number(b, pos) {
            law_scanned_number_is_literal(b, pos);
            assert(a.subrange(pos + k, end + k) =~= b.subrange(pos, end)) by {
                assert forall|i: int| 0 <= i < end - pos implies #[trigger] a[pos + k + i] == b[pos + i] by {
                    assert(a[(pos + i) + k] == b[pos + i]);
                }
            }
        }
    } else if has_char(b, pos, '"') {
        lemma_same_quoted(a, b, from, k, pos);
    } else if has_char(b, pos, '[') {
        if depth > 0 {
            lemma_same_elements(a, b, from, k, pos + 1, (depth - 1) as nat);
        }
    } else if has_char(b, pos, '{') {
        if depth > 0 {
            lemma_same_members(a, b, from, k, pos + 1, (depth - 1) as nat);
        }
    } else {
        lemma_same_keyword(a, b, from, k, pos);
        reveal_strlit("true");
        reveal_strlit("false");
        reveal_strlit("null");
    }
}

/// Elements are scanned alike at corresponding places.
pub proof fn lemma_same_elements(
    a: Seq<char>,
    b: Seq<char>,
    from: int,
    k: int,
    pos: int,
    depth: nat,
)
    requires
        same_from(a, b, from, k),
        from <= pos,
    ensures
        spec_elements(a, pos + k, depth) == shifted(spec_elements(b, pos, depth), k),
        spec_elements(b, pos, depth) matches Ok((_, end)) ==> pos < end,
    decreases depth, 3int, b.len() - pos,
{
    unfold_elements(a, pos + k, depth);
    unfold_elements(b, pos, depth);
    reveal(same_from);
    lemma_same_skip_space(a, b, from, k, pos);
    let first = skip_space(b, pos);
    lemma_same_chars(a, b, from, k, first);
    if first < b.len() && b[first] != ']' {
        law_value_depends_on_what_follows(a, b, from, k, first, depth);
        if let Ok((value, end)) = spec_value(b, first, depth) {
            lemma_same_chars(a, b, from, k, end);
            if pos <= end < b.len() && b[end] == ',' {
                lemma_same_elements(a, b, from, k, end + 1, depth);
            }
        }
    }
}

/// Members are scanned alike at corresponding places.
pub proof fn lemma_same_member(
    a: Seq<char>,
    b: Seq<char>,
    from: int,
    k: int,
    pos: int,
    depth: nat,
)
    requires
        same_from(a, b, from, k),
        from <= pos,
    ensures
        spec_member(a, pos + k, depth) == shifted(spec_member(b, pos, depth), k),
        spec_member(b, pos, depth) matches Ok((_, end)) ==> pos < end,
    decreases depth, 2int, b.len() - pos,
{
    unfold_member(a, pos + k, depth);
    unfold_member(b, pos, depth);
    reveal(same_from);
    lemma_same_skip_space(a, b, from, k, pos);
    let start = skip_space(b, pos);
    lemma_same_quoted(a, b, from, k, start);
    if let Ok((name, name_end)) = spec_quoted(b, start) {
        lemma_same_skip_space(a, b, from, k, name_end);
        let colon = skip_space(b, name_end);
        lemma_same_chars(a, b, from, k, colon);
        if has_char(b, colon, ':') {
            law_value_depends_on_what_follows(a, b, from, k, colon + 1, depth);
        }
    }
}

/// The members of an object are scanned alike at corresponding places.
pub proof fn lemma_same_members(
    a: Seq<char>,
    b: Seq<char>,
    from: int,
    k: int,
    pos: int,
    depth: nat,
)
    requires
        same_from(a, b, from, k),
        from <= pos,
    ensures
        spec_members(a, pos + k, depth) == shifted(spec_members(b, pos, depth), k),
        spec_members(b, pos, depth) matches Ok((_, end)) ==> pos < end,
    decreases depth, 3int, b.len() - pos,
{
    unfold_members(a, pos + k, depth);
    unfold_members(b, pos, depth);
    reveal(same_from);
    lemma_same_skip_space(a, b, from, k, pos);
    let first = skip_space(b, pos);
    lemma_same_chars(a, b, from, k, first);
    if first < b.len() && b[first] != '}' {
        lemma_same_member(a, b, from, k, first, depth);
        if let Ok(((name, value), end)) = spec_member(b, first, depth) {
            lemma_same_chars(a, b, from, k, end);
            if pos <= end < b.len() && b[end] == ',' {
                lemma_same_members(a, b, from, k, end + 1, depth);
            }
        }
    }
}

} // verus!
