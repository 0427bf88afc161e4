//! The compact form of a text: its tokens without the whitespace between
//! them. A document and its compact form denote the same value.

use crate::context::{
    lemma_body_bounds, lemma_same_elements, lemma_same_members, law_value_depends_on_what_follows,
    same_from,
};
use crate::errors::Failure;
use crate::grammar::{
    all_digits, exponent_end, fraction_end, has_char, has_digit, has_tag, integer_end, is_digit,
    is_number_literal, is_space, number_parts, same_letter, skip_space, spec_bare_value, spec_body,
    spec_document, spec_elements, spec_keyword, spec_member, spec_members, spec_number,
    spec_quoted, spec_value, unfold_bare_value, unfold_elements, unfold_member, unfold_members,
    unfold_value, MAX_DEPTH,
};
use crate::laws::{law_scanned_number_is_literal, law_skip_space, lemma_digit_run};
use crate::value::Json;
use vstd::prelude::*;

verus! {

/// The text of the value at `pos` without the whitespace around it and
/// between its tokens. It is empty where no value stands.
#[verifier::opaque]
pub open spec fn compact_value(s: Seq<char>, pos: int, depth: nat) -> Seq<char>
    decreases depth, 1int, s.len() - pos,
{
    compact_bare_value(s, skip_space(s, pos), depth)
}

/// The text of the value that starts exactly at `pos`, without the
/// whitespace between its tokens.
#[verifier::opaque]
pub open spec fn compact_bare_value(s: Seq<char>, pos: int, depth: nat) -> Seq<char>
    decreases depth, 0int, s.len() - pos,
{
    if has_char(s, pos, '-') || has_digit(s, pos) {
        match spec_number(s, pos) {
            Ok(end) => s.subrange(pos, end),
            Err(_) => Seq::empty(),
        }
    } else if has_char(s, pos, '"') {
        match spec_quoted(s, pos) {
            Ok((_, end)) => s.subrange(pos, end),
            Err(_) => Seq::empty(),
        }
    } else if has_char(s, pos, '[') {
        if depth == 0 {
            Seq::empty()
        } else {
            seq!['['] + compact_elements(s, pos + 1, (depth - 1) as nat)
        }
    } else if has_char(s, pos, '{') {
        if depth == 0 {
            Seq::empty()
        } else {
            seq!['{'] + compact_members(s, pos + 1, (depth - 1) as nat)
        }
    } else {
        match spec_keyword(s, pos) {
            Ok((_, end)) => s.subrange(pos, end),
            Err(_) => Seq::empty(),
        }
    }
}

/// The text of the elements from `pos` on, up to and including the closing
/// bracket, without the whitespace between the tokens.
#[verifier::opaque]
pub open spec fn compact_elements(s: Seq<char>, pos: int, depth: nat) -> Seq<char>
    decreases depth, 3int, s.len() - pos,
{
    let first = skip_space(s, pos);
    if first < 0 || first >= s.len() {
        Seq::empty()
    } else if s[first] == ']' {
        seq![']']
    } else {
        match spec_value(s, first, depth) {
            Ok((_, end)) => if end < pos || end >= s.len() {
                Seq::empty()
            } else if s[end] == ']' {
                compact_value(s, first, depth) + seq![']']
            } else if s[end] == ',' {
                compact_value(s, first, depth) + seq![','] + compact_elements(s, end + 1, depth)
            } else {
                Seq::empty()
            },
            Err(_) => Seq::empty(),
        }
    }
}

/// The text of the member at `pos`, without the whitespace between its
/// tokens.
#[verifier::opaque]
pub open spec fn compact_member(s: Seq<char>, pos: int, depth: nat) -> Seq<char>
    decreases depth, 2int, s.len() - pos,
{
    let start = skip_space(s, pos);
    match spec_quoted(s, start) {
        Ok((_, name_end)) => {
            let colon = skip_space(s, name_end);
            if has_char(s, colon, ':') {
                s.subrange(start, name_end) + seq![':'] + compact_value(s, colon + 1, depth)
            } else {
                Seq::empty()
            }
        },
        Err(_) => Seq::empty(),
    }
}

/// The text of the members from `pos` on, up to and including the closing
/// brace, without the whitespace between the tokens.
#[verifier::opaque]
pub open spec fn compact_members(s: Seq<char>, pos: int, depth: nat) -> Seq<char>
    decreases depth, 3int, s.len() - pos,
{
    let first = skip_space(s, pos);
    if first < 0 || first >= s.len() {
        Seq::empty()
    } else if s[first] == '}' {
        seq!['}']
    } else {
        match spec_member(s, first, depth) {
            Ok((_, end)) => if end < pos || end >= s.len() {
                Seq::empty()
            } else if s[end] == '}' {
                compact_member(s, first, depth) + seq!['}']
            } else if s[end] == ',' {
                compact_member(s, first, depth) + seq![','] + compact_members(s, end + 1, depth)
            } else {
                Seq::empty()
            },
            Err(_) => Seq::empty(),
        }
    }
}

/// What `compact_value` is at one place: its definition, one step deep.
pub proof fn unfold_compact_value(s: Seq<char>, pos: int, depth: nat)
    ensures
        compact_value(s, pos, depth) == ({
            compact_bare_value(s, skip_space(s, pos), depth)
        }),
{
    reveal(compact_value);
    reveal(compact_bare_value);
    reveal(compact_elements);
    reveal(compact_member);
    reveal(compact_members);
}

/// What `compact_bare_value` is at one place: its definition, one step deep.
pub proof fn unfold_compact_bare_value(s: Seq<char>, pos: int, depth: nat)
    ensures
        compact_bare_value(s, pos, depth) == ({
            if has_char(s, pos, '-') || has_digit(s, pos) {
                match spec_number(s, pos) {
                    Ok(end) => s.subrange(pos, end),
                    Err(_) => Seq::empty(),
                }
            } else if has_char(s, pos, '"') {
                match spec_quoted(s, pos) {
                    Ok((_, end)) => s.subrange(pos, end),
                    Err(_) => Seq::empty(),
                }
            } else if has_char(s, pos, '[') {
                if depth == 0 {
                    Seq::empty()
                } else {
                    seq!['['] + compact_elements(s, pos + 1, (depth - 1) as nat)
                }
            } else if has_char(s, pos, '{') {
                if depth == 0 {
                    Seq::empty()
                } else {
                    seq!['{'] + compact_members(s, pos + 1, (depth - 1) as nat)
                }
            } else {
                match spec_keyword(s, pos) {
                    Ok((_, end)) => s.subrange(pos, end),
                    Err(_) => Seq::empty(),
                }
            }
        }),
{
    reveal(compact_value);
    reveal(compact_bare_value);
    reveal(compact_elements);
    reveal(compact_member);
    reveal(compact_members);
}

/// What `compact_elements` is at one place: its definition, one step deep.
pub proof fn unfold_compact_elements(s: Seq<char>, pos: int, depth: nat)
    ensures
        compact_elements(s, pos, depth) == ({
            let first = skip_space(s, pos);
            if first < 0 || first >= s.len() {
                Seq::empty()
            } else if s[first] == ']' {
                seq![']']
            } else {
                match spec_value(s, first, depth) {
                    Ok((_, end)) => if end < pos || end >= s.len() {
                        Seq::empty()
                    } else if s[end] == ']' {
                        compact_value(s, first, depth) + seq![']']
                    } else if s[end] == ',' {
                        compact_value(s, first, depth) + seq![','] + compact_elements(s, end + 1, depth)
                    } else {
                        Seq::empty()
                    },
                    Err(_) => Seq::empty(),
                }
            }
        }),
{
    reveal(compact_value);
    reveal(compact_bare_value);
    reveal(compact_elements);
    reveal(compact_member);
    reveal(compact_members);
}

/// What `compact_member` is at one place: its definition, one step deep.
pub proof fn unfold_compact_member(s: Seq<char>, pos: int, depth: nat)
    ensures
        compact_member(s, pos, depth) == ({
            let start = skip_space(s, pos);
            match spec_quoted(s, start) {
                Ok((_, name_end)) => {
                    let colon = skip_space(s, name_end);
                    if has_char(s, colon, ':') {
                        s.subrange(start, name_end) + seq![':'] + compact_value(s, colon + 1, depth)
                    } else {
                        Seq::empty()
                    }
                },
                Err(_) => Seq::empty(),
            }
        }),
{
    reveal(compact_value);
    reveal(compact_bare_value);
    reveal(compact_elements);
    reveal(compact_member);
    reveal(compact_members);
}

/// What `compact_members` is at one place: its definition, one step deep.
pub proof fn unfold_compact_members(s: Seq<char>, pos: int, depth: nat)
    ensures
        compact_members(s, pos, depth) == ({
            let first = skip_space(s, pos);
            if first < 0 || first >= s.len() {
                Seq::empty()
            } else if s[first] == '}' {
                seq!['}']
            } else {
                match spec_member(s, first, depth) {
                    Ok((_, end)) => if end < pos || end >= s.len() {
                        Seq::empty()
                    } else if s[end] == '}' {
                        compact_member(s, first, depth) + seq!['}']
                    } else if s[end] == ',' {
                        compact_member(s, first, depth) + seq![','] + compact_members(s, end + 1, depth)
                    } else {
                        Seq::empty()
                    },
                    Err(_) => Seq::empty(),
                }
            }
        }),
{
    reveal(compact_value);
    reveal(compact_bare_value);
    reveal(compact_elements);
    reveal(compact_member);
    reveal(compact_members);
}

/// The compact form of a whole text.
pub open spec fn compact(s: Seq<char>) -> Seq<char> {
    compact_value(s, 0, MAX_DEPTH as nat)
}

/// Whether `rest` can follow a value inside a document: it is empty, or it
/// starts with a comma or a closing bracket or brace.
pub open spec fn stops(rest: Seq<char>) -> bool {
    rest.len() == 0 || rest[0] == ',' || rest[0] == ']' || rest[0] == '}'
}

/// A numeric literal that is followed by nothing that could continue it is
/// scanned whole.
pub proof fn lemma_number_then_stop(x: Seq<char>, rest: Seq<char>)
    requires
        is_number_literal(x),
        stops(rest),
    ensures
        spec_number(x + rest, 0) == Ok::<int, Failure>(x.len() as int),
{
    let t = x + rest;
    let (a, b, c) = choose|a: int, b: int, c: int| number_parts(x, a, b, c);
    let n = x.len() as int;
    assert(forall|i: int| 0 <= i < n ==> t[i] == x[i]);
    if n < t.len() {
        assert(t[n] == rest[0]);
    }
    let whole = x.subrange(a, b);
    assert(forall|i: int| a <= i < b ==> x[i] == whole[i - a]);
    assert(is_digit(whole[0]));
    assert(t[a] == whole[0]);
    if b < n {
        if b < c {
            assert(x.subrange(b, c)[0] == x[b]);
        } else {
            assert(x.subrange(c, n)[0] == x[c]);
        }
        assert(!is_digit(t[b]));
    }
    if t[a] != '0' {
        assert forall|i: int| a <= i < b implies is_digit(#[trigger] t[i]) by {
            assert(is_digit(whole[i - a]));
        }
        lemma_digit_run(t, a, b);
    }
    assert(integer_end(t, a) == b);
    if b < c {
        let frac = x.subrange(b, c);
        assert(frac[0] == x[b]);
        assert forall|i: int| b + 1 <= i < c implies is_digit(#[trigger] t[i]) by {
            assert(frac.skip(1)[i - b - 1] == x[i]);
            assert(is_digit(frac.skip(1)[i - b - 1]));
        }
        if c < n {
            assert(x.subrange(c, n)[0] == x[c]);
        }
        lemma_digit_run(t, b + 1, c);
    } else if b < n {
        assert(x.subrange(c, n)[0] == x[c]);
    }
    assert(fraction_end(t, b) == c);
    if c < n {
        let exp = x.subrange(c, n);
        assert(exp[0] == x[c]);
        assert(exp[1] == x[c + 1]);
        if all_digits(exp.skip(1)) {
            assert forall|i: int| c + 1 <= i < n implies is_digit(#[trigger] t[i]) by {
                assert(exp.skip(1)[i - c - 1] == x[i]);
                assert(is_digit(exp.skip(1)[i - c - 1]));
            }
            assert(is_digit(t[c + 1]));
            lemma_digit_run(t, c + 1, n);
        } else {
            assert forall|i: int| c + 2 <= i < n implies is_digit(#[trigger] t[i]) by {
                assert(exp.skip(2)[i - c - 2] == x[i]);
                assert(is_digit(exp.skip(2)[i - c - 2]));
            }
            assert(is_digit(t[c + 2]));
            lemma_digit_run(t, c + 2, n);
        }
    }
    assert(exponent_end(t, c) == n);
    if a == 0 {
        assert(!has_char(t, 0, '-'));
    }
}

/// A string body that ends at a quote is scanned alike wherever the same
/// characters stand, whatever follows the quote.
pub proof fn lemma_body_elsewhere(s: Seq<char>, pos: int, t: Seq<char>, q: int)
    requires
        0 <= pos,
        0 <= q,
        spec_body(s, pos) is Ok,
        spec_body(s, pos)->Ok_0.1 < s.len(),
        q + (spec_body(s, pos)->Ok_0.1 - pos) < t.len(),
        forall|i: int| pos <= i <= spec_body(s, pos)->Ok_0.1 ==> t[q + (i - pos)] == #[trigger] s[i],
    ensures
        spec_body(t, q) == Ok::<_, Failure>(
            (spec_body(s, pos)->Ok_0.0, q + (spec_body(s, pos)->Ok_0.1 - pos)),
        ),
    decreases s.len() - pos,
{
    let end = spec_body(s, pos)->Ok_0.1;
    lemma_body_bounds(s, pos);
    assert(t[q + (pos - pos)] == s[pos]);
    if s[pos] != '"' {
        if s[pos] != '\\' {
            assert(spec_body(s, pos + 1) is Ok);
            assert forall|i: int| pos + 1 <= i <= end implies t[(q + 1) + (i - (pos + 1))]
                == #[trigger] s[i] by {
                assert(t[q + (i - pos)] == s[i]);
            }
            lemma_body_elsewhere(s, pos + 1, t, q + 1);
        } else {
            assert(spec_body(s, pos + 2) is Ok);
            lemma_body_bounds(s, pos + 2);
            assert(t[q + ((pos + 1) - pos)] == s[pos + 1]);
            assert forall|i: int| pos + 2 <= i <= end implies t[(q + 2) + (i - (pos + 2))]
                == #[trigger] s[i] by {
                assert(t[q + (i - pos)] == s[i]);
            }
            lemma_body_elsewhere(s, pos + 2, t, q + 2);
        }
    }
}

/// A quoted string on its own, whatever follows it, is the string that it
/// was in its text.
pub proof fn lemma_quoted_alone(s: Seq<char>, pos: int, rest: Seq<char>)
    requires
        0 <= pos,
        spec_quoted(s, pos) is Ok,
    ensures
        pos < spec_quoted(s, pos)->Ok_0.1 <= s.len(),
        spec_quoted(s.subrange(pos, spec_quoted(s, pos)->Ok_0.1) + rest, 0) == Ok::<_, Failure>(
            (spec_quoted(s, pos)->Ok_0.0, spec_quoted(s, pos)->Ok_0.1 - pos),
        ),
{
    let end = spec_quoted(s, pos)->Ok_0.1;
    lemma_body_bounds(s, pos + 1);
    let x = s.subrange(pos, end);
    let t = x + rest;
    assert(forall|i: int| 0 <= i < x.len() ==> t[i] == s[pos + i]);
    assert(t[0] == s[pos + 0]);
    assert forall|i: int| pos + 1 <= i <= end - 1 implies t[1 + (i - (pos + 1))] == #[trigger] s[i] by {
        assert(t[i - pos] == s[pos + (i - pos)]);
    }
    lemma_body_elsewhere(s, pos + 1, t, 1);
    assert(t[end - 1 - pos] == s[pos + (end - 1 - pos)]);
}

/// A keyword on its own, whatever follows it, is the keyword that it was in
/// its text.
pub proof fn lemma_keyword_alone(s: Seq<char>, pos: int, rest: Seq<char>)
    requires
        0 <= pos,
        spec_keyword(s, pos) is Ok,
    ensures
        pos < spec_keyword(s, pos)->Ok_0.1 <= s.len(),
        spec_keyword(s.subrange(pos, spec_keyword(s, pos)->Ok_0.1) + rest, 0) == Ok::<_, Failure>(
            (spec_keyword(s, pos)->Ok_0.0, spec_keyword(s, pos)->Ok_0.1 - pos),
        ),
{
    reveal_strlit("true");
    reveal_strlit("false");
    reveal_strlit("null");
    let end = spec_keyword(s, pos)->Ok_0.1;
    let x = s.subrange(pos, end);
    let t = x + rest;
    assert(forall|i: int| 0 <= i < x.len() ==> t[i] == s[pos + i]);
    if has_tag(s, pos, "true"@) {
        lemma_tag_alone(s, pos, t, "true"@);
    } else if has_tag(s, pos, "false"@) {
        lemma_tag_alone(s, pos, t, "false"@);
    } else {
        lemma_tag_alone(s, pos, t, "null"@);
    }
    if !has_tag(s, pos, "true"@) && has_tag(s, pos, "false"@) {
        // The first letters tell the keywords apart.
        assert(same_letter(s[pos + 0], "false"@[0]));
        if has_tag(t, 0, "true"@) {
            assert(same_letter(t[0int + 0], "true"@[0]));
            assert(t[0] == s[pos + 0]);
        }
    }
    if !has_tag(s, pos, "true"@) && !has_tag(s, pos, "false"@) {
        assert(same_letter(s[pos + 0], "null"@[0]));
        assert(t[0] == s[pos + 0]);
        if has_tag(t, 0, "true"@) {
            assert(same_letter(t[0int + 0], "true"@[0]));
        }
        if has_tag(t, 0, "false"@) {
            assert(same_letter(t[0int + 0], "false"@[0]));
        }
    }
}

/// A keyword that is spelled at `pos` is spelled at the start of every text
/// that starts with the same letters.
pub proof fn lemma_tag_alone(s: Seq<char>, pos: int, t: Seq<char>, tag: Seq<char>)
    requires
        0 <= pos,
        has_tag(s, pos, tag),
        tag.len() <= t.len(),
        forall|i: int| 0 <= i < tag.len() ==> t[i] == s[pos + i],
    ensures
        has_tag(t, 0, tag),
{
    assert forall|i: int| 0 <= i < tag.len() implies same_letter(#[trigger] t[0 + i], tag[i]) by {
        assert(t[i] == s[pos + i]);
        assert(same_letter(s[pos + i], tag[i]));
    }
}

/// A text after a prefix is the text itself, further on.
pub proof fn lemma_after_prefix(prefix: Seq<char>, u: Seq<char>)
    ensures
        same_from(prefix + u, u, 0, prefix.len() as int),
{
    reveal(same_from);
}

/// The compact form of the number at `pos` denotes that number, whatever
/// stop follows it.
pub proof fn lemma_compact_number(s: Seq<char>, pos: int, depth: nat, rest: Seq<char>)
    requires
        0 <= pos <= s.len(),
        has_char(s, pos, '-') || has_digit(s, pos),
        spec_number(s, pos) is Ok,
        stops(rest),
    ensures
        pos < spec_number(s, pos)->Ok_0 <= s.len(),
        spec_bare_value(s.subrange(pos, spec_number(s, pos)->Ok_0) + rest, 0, depth) == Ok::<
            _,
            Failure,
        >(
            (
                Json::Number(s.subrange(pos, spec_number(s, pos)->Ok_0)),
                spec_number(s, pos)->Ok_0 - pos,
            ),
        ),
{
    unfold_bare_value(s.subrange(pos, spec_number(s, pos)->Ok_0) + rest, 0, depth);
    law_scanned_number_is_literal(s, pos);
    let end = spec_number(s, pos)->Ok_0;
    let c = s.subrange(pos, end);
    let t = c + rest;
    assert(c[0] == s[pos + 0]);
    assert(t[0] == c[0]);
    lemma_number_then_stop(c, rest);
    assert(t.subrange(0, c.len() as int) =~= c);
}

/// The compact form of the string at `pos` denotes that string, whatever
/// follows it.
pub proof fn lemma_compact_string(s: Seq<char>, pos: int, depth: nat, rest: Seq<char>)
    requires
        0 <= pos <= s.len(),
        has_char(s, pos, '"'),
        spec_quoted(s, pos) is Ok,
    ensures
        pos < spec_quoted(s, pos)->Ok_0.1 <= s.len(),
        spec_bare_value(s.subrange(pos, spec_quoted(s, pos)->Ok_0.1) + rest, 0, depth) == Ok::<
            _,
            Failure,
        >((Json::Str(spec_quoted(s, pos)->Ok_0.0), spec_quoted(s, pos)->Ok_0.1 - pos)),
{
    unfold_bare_value(s.subrange(pos, spec_quoted(s, pos)->Ok_0.1) + rest, 0, depth);
    lemma_quoted_alone(s, pos, rest);
    let c = s.subrange(pos, spec_quoted(s, pos)->Ok_0.1);
    let t = c + rest;
    assert(c[0] == s[pos + 0]);
    assert(t[0] == c[0]);
}

/// The compact form of the keyword at `pos` denotes its value, whatever
/// follows it.
pub proof fn lemma_compact_keyword(s: Seq<char>, pos: int, depth: nat, rest: Seq<char>)
    requires
        0 <= pos <= s.len(),
        !(has_char(s, pos, '-') || has_digit(s, pos)),
        !has_char(s, pos, '"'),
        !has_char(s, pos, '['),
        !has_char(s, pos, '{'),
        spec_keyword(s, pos) is Ok,
    ensures
        pos < spec_keyword(s, pos)->Ok_0.1 <= s.len(),
        spec_bare_value(s.subrange(pos, spec_keyword(s, pos)->Ok_0.1) + rest, 0, depth) == Ok::<
            _,
            Failure,
        >((spec_keyword(s, pos)->Ok_0.0, spec_keyword(s, pos)->Ok_0.1 - pos)),
{
    unfold_bare_value(s.subrange(pos, spec_keyword(s, pos)->Ok_0.1) + rest, 0, depth);
    lemma_keyword_alone(s, pos, rest);
    let c = s.subrange(pos, spec_keyword(s, pos)->Ok_0.1);
    let t = c + rest;
    assert(c[0] == s[pos + 0]);
    assert(t[0] == c[0]);
}

/// A bracket and elements make an array.
pub proof fn lemma_array_assembled(t: Seq<char>, depth: nat, items: Seq<Json>, end: int)
    requires
        depth > 0,
        t.len() > 0,
        t[0] == '[',
        spec_elements(t, 1, (depth - 1) as nat) == Ok::<_, Failure>((items, end)),
    ensures
        spec_bare_value(t, 0, depth) == Ok::<_, Failure>((Json::Arr(items), end)),
{
    unfold_bare_value(t, 0, depth);
}

/// A brace and members make an object.
pub proof fn lemma_object_assembled(
    t: Seq<char>,
    depth: nat,
    members: Map<Seq<char>, Json>,
    end: int,
)
    requires
        depth > 0,
        t.len() > 0,
        t[0] == '{',
        spec_members(t, 1, (depth - 1) as nat) == Ok::<_, Failure>((members, end)),
    ensures
        spec_bare_value(t, 0, depth) == Ok::<_, Failure>((Json::Obj(members), end)),
{
    unfold_bare_value(t, 0, depth);
}

/// The compact form of a value that stands at `pos` denotes that value,
/// whatever stop follows it, and starts with the first character of the
/// value.
pub proof fn lemma_compact_value(s: Seq<char>, pos: int, depth: nat, rest: Seq<char>)
    requires
        0 <= pos <= s.len(),
        spec_value(s, pos, depth) is Ok,
        stops(rest),
    ensures
        compact_value(s, pos, depth).len() > 0,
        compact_value(s, pos, depth)[0] == s[skip_space(s, pos)],
        skip_space(s, pos) < s.len(),
        spec_value(compact_value(s, pos, depth) + rest, 0, depth) == Ok::<_, Failure>(
            (spec_value(s, pos, depth)->Ok_0.0, compact_value(s, pos, depth).len() as int),
        ),
    decreases depth, 1int, s.len() - pos,
{
    unfold_value(s, pos, depth);
    unfold_compact_value(s, pos, depth);
    unfold_value(compact_value(s, pos, depth) + rest, 0, depth);
    law_skip_space(s, pos);
    let start = skip_space(s, pos);
    let c = compact_value(s, pos, depth);
    lemma_compact_bare_value(s, start, depth, rest);
    let t = c + rest;
    assert(t[0] == c[0]);
    assert(skip_space(t, 0) == 0);
    let n = c.len() as int;
    if n < t.len() {
        assert(t[n] == rest[0]);
    }
    assert(skip_space(t, n) == n);
}

/// The compact form of a number, a string or a keyword denotes its value,
/// whatever stop follows it.
pub proof fn lemma_compact_scalar(s: Seq<char>, pos: int, depth: nat, rest: Seq<char>)
    requires
        0 <= pos <= s.len(),
        !has_char(s, pos, '['),
        !has_char(s, pos, '{'),
        spec_bare_value(s, pos, depth) is Ok,
        stops(rest),
    ensures
        pos < s.len(),
        compact_bare_value(s, pos, depth).len() > 0,
        compact_bare_value(s, pos, depth)[0] == s[pos],
        spec_bare_value(compact_bare_value(s, pos, depth) + rest, 0, depth) == Ok::<_, Failure>(
            (spec_bare_value(s, pos, depth)->Ok_0.0, compact_bare_value(s, pos, depth).len() as int),
        ),
{
    unfold_bare_value(s, pos, depth);
    unfold_compact_bare_value(s, pos, depth);
    let c = compact_bare_value(s, pos, depth);
    if has_char(s, pos, '-') || has_digit(s, pos) {
        lemma_compact_number(s, pos, depth, rest);
        assert(c == s.subrange(pos, spec_number(s, pos)->Ok_0));
        assert(c[0] == s[pos + 0]);
    } else if has_char(s, pos, '"') {
        lemma_compact_string(s, pos, depth, rest);
        assert(c == s.subrange(pos, spec_quoted(s, pos)->Ok_0.1));
        assert(c[0] == s[pos + 0]);
    } else {
        lemma_compact_keyword(s, pos, depth, rest);
        assert(c == s.subrange(pos, spec_keyword(s, pos)->Ok_0.1));
        assert(c[0] == s[pos + 0]);
    }
}

/// The compact form of an array denotes that array, whatever follows it.
pub proof fn lemma_compact_array(s: Seq<char>, pos: int, depth: nat, rest: Seq<char>)
    requires
        0 <= pos <= s.len(),
        has_char(s, pos, '['),
        depth > 0,
        spec_elements(s, pos + 1, (depth - 1) as nat) is Ok,
        spec_elements(
            compact_elements(s, pos + 1, (depth - 1) as nat) + rest,
            0,
            (depth - 1) as nat,
        ) == Ok::<_, Failure>(
            (
                spec_elements(s, pos + 1, (depth - 1) as nat)->Ok_0.0,
                compact_elements(s, pos + 1, (depth - 1) as nat).len() as int,
            ),
        ),
    ensures
        compact_bare_value(s, pos, depth).len() > 0,
        compact_bare_value(s, pos, depth)[0] == s[pos],
        spec_bare_value(compact_bare_value(s, pos, depth) + rest, 0, depth) == Ok::<_, Failure>(
            (spec_bare_value(s, pos, depth)->Ok_0.0, compact_bare_value(s, pos, depth).len() as int),
        ),
{
    unfold_bare_value(s, pos, depth);
    unfold_compact_bare_value(s, pos, depth);
    let inner = compact_elements(s, pos + 1, (depth - 1) as nat);
    let c = compact_bare_value(s, pos, depth);
    assert(c == seq!['['] + inner);
    let u = inner + rest;
    let t = c + rest;
    assert(t =~= seq!['['] + u);
    lemma_after_prefix(seq!['['], u);
    lemma_same_elements(t, u, 0, 1, 0, (depth - 1) as nat);
    let items = spec_elements(s, pos + 1, (depth - 1) as nat)->Ok_0.0;
    assert(t[0] == '[');
    assert(spec_elements(t, 1, (depth - 1) as nat) == Ok::<_, Failure>(
        (items, inner.len() as int + 1),
    ));
    lemma_array_assembled(t, depth, items, inner.len() as int + 1);
}

/// The compact form of an object denotes that object, whatever follows it.
pub proof fn lemma_compact_object(s: Seq<char>, pos: int, depth: nat, rest: Seq<char>)
    requires
        0 <= pos <= s.len(),
        has_char(s, pos, '{'),
        depth > 0,
        spec_members(s, pos + 1, (depth - 1) as nat) is Ok,
        spec_members(
            compact_members(s, pos + 1, (depth - 1) as nat) + rest,
            0,
            (depth - 1) as nat,
        ) == Ok::<_, Failure>(
            (
                spec_members(s, pos + 1, (depth - 1) as nat)->Ok_0.0,
                compact_members(s, pos + 1, (depth - 1) as nat).len() as int,
            ),
        ),
    ensures
        compact_bare_value(s, pos, depth).len() > 0,
        compact_bare_value(s, pos, depth)[0] == s[pos],
        spec_bare_value(compact_bare_value(s, pos, depth) + rest, 0, depth) == Ok::<_, Failure>(
            (spec_bare_value(s, pos, depth)->Ok_0.0, compact_bare_value(s, pos, depth).len() as int),
        ),
{
    unfold_bare_value(s, pos, depth);
    unfold_compact_bare_value(s, pos, depth);
    let inner = compact_members(s, pos + 1, (depth - 1) as nat);
    let c = compact_bare_value(s, pos, depth);
    assert(c == seq!['{'] + inner);
    let u = inner + rest;
    let t = c + rest;
    assert(t =~= seq!['{'] + u);
    lemma_after_prefix(seq!['{'], u);
    lemma_same_members(t, u, 0, 1, 0, (depth - 1) as nat);
    let members = spec_members(s, pos + 1, (depth - 1) as nat)->Ok_0.0;
    assert(t[0] == '{');
    assert(spec_members(t, 1, (depth - 1) as nat) == Ok::<_, Failure>(
        (members, inner.len() as int + 1),
    ));
    lemma_object_assembled(t, depth, members, inner.len() as int + 1);
}

/// Inside an array stand elements, inside an object members, one level
/// deeper.
pub proof fn lemma_container_inside(s: Seq<char>, pos: int, depth: nat)
    requires
        spec_bare_value(s, pos, depth) is Ok,
    ensures
        has_char(s, pos, '[') ==> depth > 0 && spec_elements(s, pos + 1, (depth - 1) as nat) is Ok,
        has_char(s, pos, '{') ==> depth > 0 && spec_members(s, pos + 1, (depth - 1) as nat) is Ok,
{
    unfold_bare_value(s, pos, depth);
}

/// The compact form of a bare value denotes that value, whatever stop
/// follows it.
pub proof fn lemma_compact_bare_value(s: Seq<char>, pos: int, depth: nat, rest: Seq<char>)
    requires
        0 <= pos <= s.len(),
        spec_bare_value(s, pos, depth) is Ok,
        stops(rest),
    ensures
        pos < s.len(),
        compact_bare_value(s, pos, depth).len() > 0,
        compact_bare_value(s, pos, depth)[0] == s[pos],
        spec_bare_value(compact_bare_value(s, pos, depth) + rest, 0, depth) == Ok::<_, Failure>(
            (spec_bare_value(s, pos, depth)->Ok_0.0, compact_bare_value(s, pos, depth).len() as int),
        ),
    decreases depth, 0int, s.len() - pos,
{
    lemma_container_inside(s, pos, depth);
    if has_char(s, pos, '[') {
        lemma_compact_elements(s, pos + 1, (depth - 1) as nat, rest);
        lemma_compact_array(s, pos, depth, rest);
    } else if has_char(s, pos, '{') {
        lemma_compact_members(s, pos + 1, (depth - 1) as nat, rest);
        lemma_compact_object(s, pos, depth, rest);
    } else {
        lemma_compact_scalar(s, pos, depth, rest);
    }
}

/// No element and the closing bracket.
pub proof fn lemma_no_elements(s: Seq<char>, pos: int, depth: nat, rest: Seq<char>)
    requires
        0 <= pos <= s.len(),
        skip_space(s, pos) < s.len(),
        s[skip_space(s, pos)] == ']',
    ensures
        spec_elements(s, pos, depth) == Ok::<_, Failure>(
            (Seq::<Json>::empty(), skip_space(s, pos) + 1),
        ),
        compact_elements(s, pos, depth) == seq![']'],
        spec_elements(seq![']'] + rest, 0, depth) == Ok::<_, Failure>((Seq::<Json>::empty(), 1int)),
{
    unfold_elements(s, pos, depth);
    unfold_compact_elements(s, pos, depth);
    unfold_elements(seq![']'] + rest, 0, depth);
    law_skip_space(s, pos);
    let t = seq![']'] + rest;
    assert(t[0] == ']');
    assert(skip_space(t, 0) == 0);
}

/// No member and the closing brace.
pub proof fn lemma_no_members(s: Seq<char>, pos: int, depth: nat, rest: Seq<char>)
    requires
        0 <= pos <= s.len(),
        skip_space(s, pos) < s.len(),
        s[skip_space(s, pos)] == '}',
    ensures
        spec_members(s, pos, depth) == Ok::<_, Failure>(
            (Map::<Seq<char>, Json>::empty(), skip_space(s, pos) + 1),
        ),
        compact_members(s, pos, depth) == seq!['}'],
        spec_members(seq!['}'] + rest, 0, depth) == Ok::<_, Failure>(
            (Map::<Seq<char>, Json>::empty(), 1int),
        ),
{
    unfold_members(s, pos, depth);
    unfold_compact_members(s, pos, depth);
    unfold_members(seq!['}'] + rest, 0, depth);
    law_skip_space(s, pos);
    let t = seq!['}'] + rest;
    assert(t[0] == '}');
    assert(skip_space(t, 0) == 0);
}

/// Where elements stand, the text has not ended.
pub proof fn lemma_elements_in_text(s: Seq<char>, pos: int, depth: nat)
    requires
        0 <= pos <= s.len(),
        spec_elements(s, pos, depth) is Ok,
    ensures
        skip_space(s, pos) < s.len(),
{
    unfold_elements(s, pos, depth);
    law_skip_space(s, pos);
}

/// Where members stand, the text has not ended.
pub proof fn lemma_members_in_text(s: Seq<char>, pos: int, depth: nat)
    requires
        0 <= pos <= s.len(),
        spec_members(s, pos, depth) is Ok,
    ensures
        skip_space(s, pos) < s.len(),
{
    unfold_members(s, pos, depth);
    law_skip_space(s, pos);
}

/// One element and the closing bracket.
pub proof fn lemma_last_element(t: Seq<char>, depth: nat, value: Json, n: int)
    requires
        0 < n < t.len(),
        !is_space(t[0]),
        t[0] != ']',
        spec_value(t, 0, depth) == Ok::<_, Failure>((value, n)),
        t[n] == ']',
    ensures
        spec_elements(t, 0, depth) == Ok::<_, Failure>((seq![value], n + 1)),
{
    unfold_elements(t, 0, depth);
    assert(skip_space(t, 0) == 0);
}

/// One element, a comma and more elements.
pub proof fn lemma_more_elements(
    t: Seq<char>,
    depth: nat,
    value: Json,
    n: int,
    items: Seq<Json>,
    end: int,
)
    requires
        0 < n < t.len(),
        !is_space(t[0]),
        t[0] != ']',
        spec_value(t, 0, depth) == Ok::<_, Failure>((value, n)),
        t[n] == ',',
        spec_elements(t, n + 1, depth) == Ok::<_, Failure>((items, end)),
    ensures
        spec_elements(t, 0, depth) == Ok::<_, Failure>((seq![value] + items, end)),
{
    unfold_elements(t, 0, depth);
    assert(skip_space(t, 0) == 0);
}

/// What the elements from `pos` on are, where they end with the first
/// element and the bracket.
pub proof fn lemma_first_element(s: Seq<char>, pos: int, depth: nat)
    requires
        0 <= pos <= s.len(),
        spec_elements(s, pos, depth) is Ok,
        s[skip_space(s, pos)] != ']',
    ensures
        skip_space(s, pos) < s.len(),
        spec_value(s, skip_space(s, pos), depth) is Ok,
        ({
            let end = spec_value(s, skip_space(s, pos), depth)->Ok_0.1;
            let value = spec_value(s, skip_space(s, pos), depth)->Ok_0.0;
            &&& pos <= end < s.len()
            &&& s[end] == ']' || s[end] == ','
            &&& s[end] == ']' ==> spec_elements(s, pos, depth) == Ok::<_, Failure>(
                (seq![value], end + 1),
            ) && compact_elements(s, pos, depth) == compact_value(s, skip_space(s, pos), depth)
                + seq![']']
            &&& s[end] == ',' ==> spec_elements(s, end + 1, depth) is Ok && spec_elements(
                s,
                pos,
                depth,
            ) == Ok::<_, Failure>(
                (
                    seq![value] + spec_elements(s, end + 1, depth)->Ok_0.0,
                    spec_elements(s, end + 1, depth)->Ok_0.1,
                ),
            ) && compact_elements(s, pos, depth) == compact_value(s, skip_space(s, pos), depth)
                + seq![','] + compact_elements(s, end + 1, depth)
        }),
{
    unfold_elements(s, pos, depth);
    unfold_compact_elements(s, pos, depth);
    law_skip_space(s, pos);
}

/// The compact form of the elements of an array denotes those elements,
/// whatever follows the closing bracket.
pub proof fn lemma_compact_elements(s: Seq<char>, pos: int, depth: nat, rest: Seq<char>)
    requires
        0 <= pos <= s.len(),
        spec_elements(s, pos, depth) is Ok,
    ensures
        spec_elements(compact_elements(s, pos, depth) + rest, 0, depth) == Ok::<_, Failure>(
            (spec_elements(s, pos, depth)->Ok_0.0, compact_elements(s, pos, depth).len() as int),
        ),
    decreases depth, 3int, s.len() - pos,
{
    law_skip_space(s, pos);
    lemma_elements_in_text(s, pos, depth);
    let first = skip_space(s, pos);
    let c = compact_elements(s, pos, depth);
    let t = c + rest;
    if s[first] == ']' {
        lemma_no_elements(s, pos, depth, rest);
    } else {
        lemma_first_element(s, pos, depth);
        let (value, end) = spec_value(s, first, depth)->Ok_0;
        let head = compact_value(s, first, depth);
        let n = head.len() as int;
        law_skip_space(s, first);
        if s[end] == ']' {
            let after = seq![']'] + rest;
            lemma_compact_value(s, first, depth, after);
            assert(t =~= head + after);
            assert(t[0] == head[0]);
            assert(t[n] == after[0]);
            lemma_last_element(t, depth, value, n);
        } else {
            let tail = compact_elements(s, end + 1, depth);
            lemma_compact_elements(s, end + 1, depth, rest);
            let u = tail + rest;
            let after = seq![','] + u;
            lemma_compact_value(s, first, depth, after);
            assert(t =~= head + after);
            assert(t[0] == head[0]);
            assert(t[n] == after[0]);
            assert(t =~= (head + seq![',']) + u);
            lemma_after_prefix(head + seq![','], u);
            lemma_same_elements(t, u, 0, n + 1, 0, depth);
            let items = spec_elements(s, end + 1, depth)->Ok_0.0;
            assert(spec_elements(t, n + 1, depth) == Ok::<_, Failure>(
                (items, tail.len() + n + 1),
            ));
            lemma_more_elements(t, depth, value, n, items, tail.len() + n + 1);
        }
    }
}

/// A name, a colon and a value make a member.
pub proof fn lemma_member_assembled(
    t: Seq<char>,
    depth: nat,
    name: Seq<char>,
    n: int,
    value: Json,
    end: int,
)
    requires
        0 < n < t.len(),
        !is_space(t[0]),
        spec_quoted(t, 0) == Ok::<_, Failure>((name, n)),
        t[n] == ':',
        spec_value(t, n + 1, depth) == Ok::<_, Failure>((value, end)),
    ensures
        spec_member(t, 0, depth) == Ok::<_, Failure>(((name, value), end)),
{
    unfold_member(t, 0, depth);
    assert(skip_space(t, 0) == 0);
    assert(skip_space(t, n) == n);
}

/// What the member at `pos` is made of.
pub proof fn lemma_member_parts(s: Seq<char>, pos: int, depth: nat)
    requires
        0 <= pos <= s.len(),
        spec_member(s, pos, depth) is Ok,
    ensures
        spec_quoted(s, skip_space(s, pos)) is Ok,
        ({
            let start = skip_space(s, pos);
            let name = spec_quoted(s, start)->Ok_0.0;
            let name_end = spec_quoted(s, start)->Ok_0.1;
            let colon = skip_space(s, name_end);
            &&& pos <= start < name_end <= colon < s.len()
            &&& s[colon] == ':'
            &&& spec_value(s, colon + 1, depth) is Ok
            &&& spec_member(s, pos, depth) == Ok::<_, Failure>(
                (
                    (name, spec_value(s, colon + 1, depth)->Ok_0.0),
                    spec_value(s, colon + 1, depth)->Ok_0.1,
                ),
            )
            &&& compact_member(s, pos, depth) == s.subrange(start, name_end) + seq![':']
                + compact_value(s, colon + 1, depth)
        }),
{
    unfold_member(s, pos, depth);
    unfold_compact_member(s, pos, depth);
    law_skip_space(s, pos);
    let start = skip_space(s, pos);
    lemma_body_bounds(s, start + 1);
    let name_end = spec_quoted(s, start)->Ok_0.1;
    law_skip_space(s, name_end);
}

/// The compact form of a member denotes that member, whatever stop follows
/// it.
pub proof fn lemma_compact_member(s: Seq<char>, pos: int, depth: nat, rest: Seq<char>)
    requires
        0 <= pos <= s.len(),
        spec_member(s, pos, depth) is Ok,
        stops(rest),
    ensures
        compact_member(s, pos, depth).len() > 0,
        compact_member(s, pos, depth)[0] == '"',
        spec_member(compact_member(s, pos, depth) + rest, 0, depth) == Ok::<_, Failure>(
            (spec_member(s, pos, depth)->Ok_0.0, compact_member(s, pos, depth).len() as int),
        ),
    decreases depth, 2int, s.len() - pos,
{
    lemma_member_parts(s, pos, depth);
    let start = skip_space(s, pos);
    let (name, name_end) = spec_quoted(s, start)->Ok_0;
    let colon = skip_space(s, name_end);
    let value = spec_value(s, colon + 1, depth)->Ok_0.0;
    let c = compact_member(s, pos, depth);
    let t = c + rest;
    let raw = s.subrange(start, name_end);
    let inner = compact_value(s, colon + 1, depth);
    let u = inner + rest;
    let after = seq![':'] + u;
    let n = raw.len() as int;
    lemma_quoted_alone(s, start, after);
    lemma_compact_value(s, colon + 1, depth, rest);
    assert(t =~= raw + after);
    assert(raw[0] == s[start + 0]);
    assert(t[0] == raw[0]);
    assert(t[n] == after[0]);
    assert(t =~= (raw + seq![':']) + u);
    lemma_after_prefix(raw + seq![':'], u);
    law_value_depends_on_what_follows(t, u, 0, n + 1, 0, depth);
    assert(spec_value(t, n + 1, depth) == Ok::<_, Failure>((value, inner.len() + n + 1)));
    lemma_member_assembled(t, depth, name, n, value, inner.len() + n + 1);
}

/// One member and the closing brace.
pub proof fn lemma_last_member(t: Seq<char>, depth: nat, member: (Seq<char>, Json), n: int)
    requires
        0 < n < t.len(),
        !is_space(t[0]),
        t[0] != '}',
        spec_member(t, 0, depth) == Ok::<_, Failure>((member, n)),
        t[n] == '}',
    ensures
        spec_members(t, 0, depth) == Ok::<_, Failure>((map![member.0 => member.1], n + 1)),
{
    unfold_members(t, 0, depth);
    assert(skip_space(t, 0) == 0);
}

/// One member, a comma and more members.
pub proof fn lemma_more_members(
    t: Seq<char>,
    depth: nat,
    member: (Seq<char>, Json),
    n: int,
    members: Map<Seq<char>, Json>,
    end: int,
)
    requires
        0 < n < t.len(),
        !is_space(t[0]),
        t[0] != '}',
        spec_member(t, 0, depth) == Ok::<_, Failure>((member, n)),
        t[n] == ',',
        spec_members(t, n + 1, depth) == Ok::<_, Failure>((members, end)),
    ensures
        spec_members(t, 0, depth) == Ok::<_, Failure>(
            (map![member.0 => member.1].union_prefer_right(members), end),
        ),
{
    unfold_members(t, 0, depth);
    assert(skip_space(t, 0) == 0);
}

/// What the members from `pos` on are, where they do not end at once.
pub proof fn lemma_first_member(s: Seq<char>, pos: int, depth: nat)
    requires
        0 <= pos <= s.len(),
        spec_members(s, pos, depth) is Ok,
        s[skip_space(s, pos)] != '}',
    ensures
        skip_space(s, pos) < s.len(),
        spec_member(s, skip_space(s, pos), depth) is Ok,
        ({
            let end = spec_member(s, skip_space(s, pos), depth)->Ok_0.1;
            let member = spec_member(s, skip_space(s, pos), depth)->Ok_0.0;
            &&& pos <= end < s.len()
            &&& s[end] == '}' || s[end] == ','
            &&& s[end] == '}' ==> spec_members(s, pos, depth) == Ok::<_, Failure>(
                (map![member.0 => member.1], end + 1),
            ) && compact_members(s, pos, depth) == compact_member(s, skip_space(s, pos), depth)
                + seq!['}']
            &&& s[end] == ',' ==> spec_members(s, end + 1, depth) is Ok && spec_members(
                s,
                pos,
                depth,
            ) == Ok::<_, Failure>(
                (
                    map![member.0 => member.1].union_prefer_right(
                        spec_members(s, end + 1, depth)->Ok_0.0,
                    ),
                    spec_members(s, end + 1, depth)->Ok_0.1,
                ),
            ) && compact_members(s, pos, depth) == compact_member(s, skip_space(s, pos), depth)
                + seq![','] + compact_members(s, end + 1, depth)
        }),
{
    unfold_members(s, pos, depth);
    unfold_compact_members(s, pos, depth);
    law_skip_space(s, pos);
}

/// The compact form of the members of an object denotes those members,
/// whatever follows the closing brace.
pub proof fn lemma_compact_members(s: Seq<char>, pos: int, depth: nat, rest: Seq<char>)
    requires
        0 <= pos <= s.len(),
        spec_members(s, pos, depth) is Ok,
    ensures
        spec_members(compact_members(s, pos, depth) + rest, 0, depth) == Ok::<_, Failure>(
            (spec_members(s, pos, depth)->Ok_0.0, compact_members(s, pos, depth).len() as int),
        ),
    decreases depth, 3int, s.len() - pos,
{
    law_skip_space(s, pos);
    lemma_members_in_text(s, pos, depth);
    let first = skip_space(s, pos);
    let c = compact_members(s, pos, depth);
    let t = c + rest;
    if s[first] == '}' {
        lemma_no_members(s, pos, depth, rest);
    } else {
        lemma_first_member(s, pos, depth);
        let (member, end) = spec_member(s, first, depth)->Ok_0;
        let head = compact_member(s, first, depth);
        let n = head.len() as int;
        if s[end] == '}' {
            let after = seq!['}'] + rest;
            lemma_compact_member(s, first, depth, after);
            assert(t =~= head + after);
            assert(t[0] == head[0]);
            assert(t[n] == after[0]);
            lemma_last_member(t, depth, member, n);
        } else {
            let tail = compact_members(s, end + 1, depth);
            lemma_compact_members(s, end + 1, depth, rest);
            let u = tail + rest;
            let after = seq![','] + u;
            lemma_compact_member(s, first, depth, after);
            assert(t =~= head + after);
            assert(t[0] == head[0]);
            assert(t[n] == after[0]);
            assert(t =~= (head + seq![',']) + u);
            lemma_after_prefix(head + seq![','], u);
            lemma_same_members(t, u, 0, n + 1, 0, depth);
            let members = spec_members(s, end + 1, depth)->Ok_0.0;
            assert(spec_members(t, n + 1, depth) == Ok::<_, Failure>(
                (members, tail.len() + n + 1),
            ));
            lemma_more_members(t, depth, member, n, members, tail.len() + n + 1);
        }
    }
}

/// Whitespace between the tokens of a document is insignificant: the
/// compact form of a document is a document with the same value.
pub proof fn law_compact_form_has_the_same_value(s: Seq<char>)
    requires
        spec_document(s) is Ok,
    ensures
        spec_document(compact(s)) == spec_document(s),
{
    let rest = Seq::<char>::empty();
    lemma_compact_value(s, 0, MAX_DEPTH as nat, rest);
    assert(compact(s) + rest =~= compact(s));
}

/// Two documents that differ only in the whitespace between their tokens
/// denote the same value.
pub proof fn law_spacing_is_insignificant(a: Seq<char>, b: Seq<char>)
    requires
        spec_document(a) is Ok,
        spec_document(b) is Ok,
        compact(a) == compact(b),
    ensures
        spec_document(a) == spec_document(b),
{
    law_compact_form_has_the_same_value(a);
    law_compact_form_has_the_same_value(b);
}

} // verus!
