//! Laws of the grammar: what holds of every text.

use crate::errors::Failure;
use crate::grammar::{
    all_digits, escaped, escaped_char, exponent_end, fraction_end, has_char, has_digit, has_tag,
    integer_end, is_digit, is_exponent, is_fraction, is_integer_part, is_number_literal, is_space,
    number_parts, skip_digits, skip_space, spec_bare_value, spec_body, spec_document, spec_number,
    unfold_bare_value, unfold_value, MAX_DEPTH,
};
use crate::value::{
    distinct_keys, entry_keys, last_index_of, lemma_last_index_of, members_view, Json, Value,
};
use vstd::prelude::*;

verus! {

/// Whitespace is skipped up to a character that is not whitespace, or to the
/// end of the text, and over nothing else.
pub proof fn law_skip_space(s: Seq<char>, pos: int)
    requires
        0 <= pos <= s.len(),
    ensures
        pos <= skip_space(s, pos) <= s.len(),
        forall|i: int| pos <= i < skip_space(s, pos) ==> is_space(#[trigger] s[i]),
        skip_space(s, pos) < s.len() ==> !is_space(s[skip_space(s, pos)]),
        skip_space(s, skip_space(s, pos)) == skip_space(s, pos),
    decreases s.len() - pos,
{
    if pos < s.len() && is_space(s[pos]) {
        law_skip_space(s, pos + 1);
    }
}

/// A keyword is recognised in any letter case, as the value that it names,
/// and exactly its letters are consumed.
pub proof fn law_keywords_any_case(s: Seq<char>, pos: int, depth: nat)
    ensures
        has_tag(s, pos, "true"@) ==> spec_bare_value(s, pos, depth) == Ok::<_, Failure>(
            (Json::Bool(true), pos + 4),
        ),
        has_tag(s, pos, "false"@) ==> spec_bare_value(s, pos, depth) == Ok::<_, Failure>(
            (Json::Bool(false), pos + 5),
        ),
        has_tag(s, pos, "null"@) ==> spec_bare_value(s, pos, depth) == Ok::<_, Failure>(
            (Json::Null, pos + 4),
        ),
{
    unfold_bare_value(s, pos, depth);
    reveal_strlit("true");
    reveal_strlit("false");
    reveal_strlit("null");
    if has_tag(s, pos, "true"@) {
        assert(s[pos + 0] == 't' || s[pos + 0] == 'T');
    }
    if has_tag(s, pos, "false"@) {
        assert(s[pos + 0] == 'f' || s[pos + 0] == 'F');
    }
    if has_tag(s, pos, "null"@) {
        assert(s[pos + 0] == 'n' || s[pos + 0] == 'N');
    }
}

/// A text that is one keyword, in any letter case, is a document with the
/// value that the keyword names.
pub proof fn law_keyword_documents(s: Seq<char>)
    ensures
        s.len() == 4 && has_tag(s, 0, "true"@) ==> spec_document(s) == Ok::<_, Failure>(
            Json::Bool(true),
        ),
        s.len() == 5 && has_tag(s, 0, "false"@) ==> spec_document(s) == Ok::<_, Failure>(
            Json::Bool(false),
        ),
        s.len() == 4 && has_tag(s, 0, "null"@) ==> spec_document(s) == Ok::<_, Failure>(Json::Null),
{
    unfold_value(s, 0, MAX_DEPTH as nat);
    reveal_strlit("true");
    reveal_strlit("false");
    reveal_strlit("null");
    law_keywords_any_case(s, 0, MAX_DEPTH as nat);
    if has_tag(s, 0, "true"@) {
        assert(s[0int + 0] == 't' || s[0int + 0] == 'T');
    }
    if has_tag(s, 0, "false"@) {
        assert(s[0int + 0] == 'f' || s[0int + 0] == 'F');
    }
    if has_tag(s, 0, "null"@) {
        assert(s[0int + 0] == 'n' || s[0int + 0] == 'N');
    }
}

/// What a text denotes depends on its characters alone: two texts with the
/// same characters denote the same value, or fail in the same way at the
/// same place.
pub proof fn law_same_text_same_outcome(a: Seq<char>, b: Seq<char>)
    requires
        a.len() == b.len(),
        forall|i: int| 0 <= i < a.len() ==> a[i] == b[i],
    ensures
        spec_document(a) == spec_document(b),
{
    assert(a =~= b);
}

/// With distinct names, the map of a list of entries holds exactly the
/// entries: each name is mapped to the value listed with it.
pub proof fn law_members_are_the_entries(entries: Seq<(String, Value)>)
    requires
        distinct_keys(entry_keys(entries)),
    ensures
        forall|i: int|
            0 <= i < entries.len() ==> members_view(entries).dom().contains(
                #[trigger] entries[i].0@,
            ) && members_view(entries)[entries[i].0@] == entries[i].1@,
        forall|k: Seq<char>|
            members_view(entries).dom().contains(k) ==> exists|i: int|
                0 <= i < entries.len() && #[trigger] entries[i].0@ == k,
{
    let keys = entry_keys(entries);
    assert forall|i: int| 0 <= i < entries.len() implies members_view(entries).dom().contains(
        #[trigger] entries[i].0@,
    ) && members_view(entries)[entries[i].0@] == entries[i].1@ by {
        lemma_last_index_of(keys, entries[i].0@);
        assert(keys[i] == entries[i].0@);
        let j = last_index_of(keys, entries[i].0@);
        assert(j >= i);
        if j > i {
            assert(keys[i] != keys[j]);
        }
    }
    assert forall|k: Seq<char>| members_view(entries).dom().contains(k) implies exists|i: int|
        0 <= i < entries.len() && #[trigger] entries[i].0@ == k by {
        lemma_last_index_of(keys, k);
        let j = last_index_of(keys, k);
        assert(entries[j].0@ == keys[j]);
    }
}

/// Whether `entries` lists `name` with a value whose model is `value`.
pub open spec fn lists(entries: Seq<(String, Value)>, name: Seq<char>, value: Json) -> bool {
    exists|j: int|
        0 <= j < entries.len() && (#[trigger] entries[j]).0@ == name && entries[j].1@ == value
}

/// Objects do not depend on the order of their entries: two lists with
/// distinct names that hold the same entries stand for the same map.
pub proof fn law_members_order_independent(a: Seq<(String, Value)>, b: Seq<(String, Value)>)
    requires
        distinct_keys(entry_keys(a)),
        distinct_keys(entry_keys(b)),
        forall|i: int| 0 <= i < a.len() ==> lists(b, (#[trigger] a[i]).0@, a[i].1@),
        forall|j: int| 0 <= j < b.len() ==> lists(a, (#[trigger] b[j]).0@, b[j].1@),
    ensures
        members_view(a) == members_view(b),
{
    law_members_are_the_entries(a);
    law_members_are_the_entries(b);
    let ma = members_view(a);
    let mb = members_view(b);
    assert forall|k: Seq<char>| ma.dom().contains(k) implies mb.dom().contains(k) && ma[k]
        == mb[k] by {
        let i = choose|i: int| 0 <= i < a.len() && #[trigger] a[i].0@ == k;
        assert(lists(b, a[i].0@, a[i].1@));
        let j = choose|j: int|
            0 <= j < b.len() && (#[trigger] b[j]).0@ == a[i].0@ && b[j].1@ == a[i].1@;
        assert(mb.dom().contains(b[j].0@));
    }
    assert forall|k: Seq<char>| mb.dom().contains(k) implies ma.dom().contains(k) by {
        let j = choose|j: int| 0 <= j < b.len() && #[trigger] b[j].0@ == k;
        assert(lists(a, b[j].0@, b[j].1@));
        let i = choose|i: int|
            0 <= i < a.len() && (#[trigger] a[i]).0@ == b[j].0@ && a[i].1@ == b[j].1@;
        assert(ma.dom().contains(a[i].0@));
    }
    assert(ma =~= mb);
}

/// Digits are skipped up to a character that is not a digit, or to the end
/// of the text, and over nothing else.
pub proof fn law_skip_digits(s: Seq<char>, pos: int)
    requires
        0 <= pos <= s.len(),
    ensures
        pos <= skip_digits(s, pos) <= s.len(),
        forall|i: int| pos <= i < skip_digits(s, pos) ==> is_digit(#[trigger] s[i]),
        skip_digits(s, pos) < s.len() ==> !is_digit(s[skip_digits(s, pos)]),
    decreases s.len() - pos,
{
    if has_digit(s, pos) {
        law_skip_digits(s, pos + 1);
    }
}

/// A run of digits that ends at a character that is not a digit, or at the
/// end of the text, is skipped whole.
pub proof fn lemma_digit_run(s: Seq<char>, from: int, to: int)
    requires
        0 <= from <= to <= s.len(),
        forall|i: int| from <= i < to ==> is_digit(#[trigger] s[i]),
        to < s.len() ==> !is_digit(s[to]),
    ensures
        skip_digits(s, from) == to,
    decreases to - from,
{
    if from < to {
        assert(is_digit(s[from]));
        lemma_digit_run(s, from + 1, to);
    }
}

/// Every numeric literal of the grammar is scanned whole.
pub proof fn law_number_literal_is_scanned(t: Seq<char>)
    requires
        is_number_literal(t),
    ensures
        spec_number(t, 0) == Ok::<int, Failure>(t.len() as int),
{
    let (a, b, c) = choose|a: int, b: int, c: int| number_parts(t, a, b, c);
    let n = t.len() as int;
    let whole = t.subrange(a, b);
    assert(forall|i: int| a <= i < b ==> t[i] == whole[i - a]);
    assert(is_digit(whole[0]));
    assert(t[a] == whole[0]);
    // What follows the integer part is not a digit.
    if b < n {
        if b < c {
            assert(t.subrange(b, c)[0] == t[b]);
        } else {
            assert(t.subrange(c, n)[0] == t[c]);
        }
        assert(!is_digit(t[b]));
    }
    if t[a] != '0' {
        assert forall|i: int| a <= i < b implies is_digit(#[trigger] t[i]) by {
            assert(is_digit(whole[i - a]));
        }
        lemma_digit_run(t, a, b);
    }
    assert(integer_end(t, a) == b);
    // The fraction.
    if b < c {
        let frac = t.subrange(b, c);
        assert(frac[0] == t[b]);
        assert forall|i: int| b + 1 <= i < c implies is_digit(#[trigger] t[i]) by {
            assert(frac.skip(1)[i - b - 1] == t[i]);
            assert(is_digit(frac.skip(1)[i - b - 1]));
        }
        if c < n {
            assert(t.subrange(c, n)[0] == t[c]);
        }
        lemma_digit_run(t, b + 1, c);
    } else if b < n {
        assert(t.subrange(c, n)[0] == t[c]);
    }
    assert(fraction_end(t, b) == c);
    // The exponent.
    if c < n {
        let exp = t.subrange(c, n);
        assert(exp[0] == t[c]);
        assert(exp[1] == t[c + 1]);
        if all_digits(exp.skip(1)) {
            assert forall|i: int| c + 1 <= i < n implies is_digit(#[trigger] t[i]) by {
                assert(exp.skip(1)[i - c - 1] == t[i]);
                assert(is_digit(exp.skip(1)[i - c - 1]));
            }
            assert(is_digit(t[c + 1]));
            lemma_digit_run(t, c + 1, n);
        } else {
            assert forall|i: int| c + 2 <= i < n implies is_digit(#[trigger] t[i]) by {
                assert(exp.skip(2)[i - c - 2] == t[i]);
                assert(is_digit(exp.skip(2)[i - c - 2]));
            }
            assert(is_digit(t[c + 2]));
            lemma_digit_run(t, c + 2, n);
        }
    }
    assert(exponent_end(t, c) == n);
    if a == 0 {
        assert(!has_char(t, 0, '-'));
    }
}

/// What the scanner takes for a number is a numeric literal of the grammar,
/// and it is not empty.
pub proof fn law_scanned_number_is_literal(s: Seq<char>, pos: int)
    requires
        0 <= pos,
        spec_number(s, pos) is Ok,
    ensures
        pos < spec_number(s, pos)->Ok_0 <= s.len(),
        is_number_literal(s.subrange(pos, spec_number(s, pos)->Ok_0)),
{
    let a = if has_char(s, pos, '-') {
        pos + 1
    } else {
        pos
    };
    let b = integer_end(s, a);
    let c = fraction_end(s, b);
    let end = exponent_end(s, c);
    law_skip_digits(s, a);
    assert(a < b <= s.len());
    if has_char(s, b, '.') && has_digit(s, b + 1) {
        law_skip_digits(s, b + 1);
    }
    assert(b <= c <= s.len());
    let digits = if has_char(s, c + 1, '+') || has_char(s, c + 1, '-') {
        c + 2
    } else {
        c + 1
    };
    if (has_char(s, c, 'e') || has_char(s, c, 'E')) && has_digit(s, digits) {
        law_skip_digits(s, digits);
    }
    assert(c <= end <= s.len());
    let t = s.subrange(pos, end);
    assert(forall|i: int| 0 <= i < t.len() ==> t[i] == s[pos + i]);
    let (ta, tb, tc) = (a - pos, b - pos, c - pos);
    let whole = t.subrange(ta, tb);
    assert forall|i: int| 0 <= i < whole.len() implies is_digit(#[trigger] whole[i]) by {
        assert(whole[i] == s[a + i]);
    }
    assert(whole[0] == s[a]);
    assert(is_integer_part(whole));
    if tb < tc {
        let frac = t.subrange(tb, tc);
        assert(frac[0] == s[b]);
        assert forall|i: int| 0 <= i < frac.skip(1).len() implies is_digit(
            #[trigger] frac.skip(1)[i],
        ) by {
            assert(frac.skip(1)[i] == s[b + 1 + i]);
        }
        assert(is_fraction(frac));
    }
    if tc < t.len() {
        let exp = t.subrange(tc, t.len() as int);
        assert(exp[0] == s[c]);
        assert(exp[1] == s[c + 1]);
        if digits == c + 1 {
            assert forall|i: int| 0 <= i < exp.skip(1).len() implies is_digit(
                #[trigger] exp.skip(1)[i],
            ) by {
                assert(exp.skip(1)[i] == s[c + 1 + i]);
            }
        } else {
            assert forall|i: int| 0 <= i < exp.skip(2).len() implies is_digit(
                #[trigger] exp.skip(2)[i],
            ) by {
                assert(exp.skip(2)[i] == s[c + 2 + i]);
            }
        }
        assert(is_exponent(exp));
    }
    assert(number_parts(t, ta, tb, tc));
}

/// A run of digits is skipped at least to its end.
pub proof fn lemma_digits_are_skipped(s: Seq<char>, from: int, to: int)
    requires
        0 <= from <= to <= s.len(),
        forall|i: int| from <= i < to ==> is_digit(#[trigger] s[i]),
    ensures
        to <= skip_digits(s, from) <= s.len(),
    decreases to - from,
{
    if from < to {
        assert(is_digit(s[from]));
        lemma_digits_are_skipped(s, from + 1, to);
    } else {
        law_skip_digits(s, from);
    }
}

/// A fraction and an exponent are taken whole or not at all: neither ends
/// before it starts, nor after the text.
pub proof fn lemma_number_parts_advance(s: Seq<char>, pos: int)
    requires
        0 <= pos <= s.len(),
    ensures
        pos <= fraction_end(s, pos) <= s.len(),
        pos <= exponent_end(s, pos) <= s.len(),
{
    if has_digit(s, pos + 1) {
        law_skip_digits(s, pos + 1);
    }
    if has_digit(s, pos + 2) {
        law_skip_digits(s, pos + 2);
    }
}

/// The scanner takes the longest numeric literal: wherever a literal of the
/// grammar stands at `pos`, a number is scanned there, and it ends no
/// earlier than the literal.
pub proof fn law_number_is_the_longest_literal(s: Seq<char>, pos: int, end: int)
    requires
        0 <= pos <= end <= s.len(),
        is_number_literal(s.subrange(pos, end)),
    ensures
        spec_number(s, pos) is Ok,
        end <= spec_number(s, pos)->Ok_0 <= s.len(),
{
    let x = s.subrange(pos, end);
    let n = x.len() as int;
    let (a, b, c) = choose|a: int, b: int, c: int| number_parts(x, a, b, c);
    assert(forall|i: int| 0 <= i < n ==> x[i] == s[pos + i]);
    let whole = x.subrange(a, b);
    assert(forall|i: int| a <= i < b ==> x[i] == whole[i - a]);
    assert(is_digit(whole[0]));
    assert(s[pos + a] == whole[0]);
    if a == 1 {
        assert(s[pos + 0] == x[0]);
    } else {
        assert(!has_char(s, pos, '-'));
    }
    let first = pos + a;
    assert forall|i: int| first <= i < pos + b implies is_digit(#[trigger] s[i]) by {
        assert(s[pos + (i - pos)] == x[i - pos]);
        assert(is_digit(whole[i - pos - a]));
    }
    lemma_digits_are_skipped(s, first, pos + b);
    let int_end = integer_end(s, first);
    assert(pos + b <= int_end <= s.len());
    lemma_number_parts_advance(s, int_end);
    let frac_end = fraction_end(s, int_end);
    lemma_number_parts_advance(s, frac_end);
    if b < n {
        // In the literal a point or an exponent follows the integer part.
        if b < c {
            assert(x.subrange(b, c)[0] == x[b]);
        } else {
            assert(x.subrange(c, n)[0] == x[c]);
        }
        assert(s[pos + b] == x[b]);
        assert(!is_digit(s[pos + b]));
        if s[first] != '0' {
            lemma_digit_run(s, first, pos + b);
        }
        assert(int_end == pos + b);
        if b < c {
            let frac = x.subrange(b, c);
            assert(frac[0] == x[b]);
            assert forall|i: int| pos + b + 1 <= i < pos + c implies is_digit(#[trigger] s[i]) by {
                assert(s[pos + (i - pos)] == x[i - pos]);
                assert(frac.skip(1)[i - pos - b - 1] == x[i - pos]);
                assert(is_digit(frac.skip(1)[i - pos - b - 1]));
            }
            assert(is_digit(s[pos + b + 1]));
            lemma_digits_are_skipped(s, pos + b + 1, pos + c);
            if c < n {
                assert(x.subrange(c, n)[0] == x[c]);
                assert(s[pos + c] == x[c]);
                lemma_digit_run(s, pos + b + 1, pos + c);
            }
        }
        if c < n {
            assert(frac_end == pos + c);
            let exp = x.subrange(c, n);
            assert(exp[0] == x[c]);
            assert(exp[1] == x[c + 1]);
            assert(s[pos + c] == x[c]);
            assert(s[pos + (c + 1)] == x[c + 1]);
            if all_digits(exp.skip(1)) {
                assert forall|i: int| pos + c + 1 <= i < pos + n implies is_digit(
                    #[trigger] s[i],
                ) by {
                    assert(s[pos + (i - pos)] == x[i - pos]);
                    assert(exp.skip(1)[i - pos - c - 1] == x[i - pos]);
                    assert(is_digit(exp.skip(1)[i - pos - c - 1]));
                }
                assert(is_digit(s[pos + c + 1]));
                lemma_digits_are_skipped(s, pos + c + 1, pos + n);
            } else {
                assert forall|i: int| pos + c + 2 <= i < pos + n implies is_digit(
                    #[trigger] s[i],
                ) by {
                    assert(s[pos + (i - pos)] == x[i - pos]);
                    assert(exp.skip(2)[i - pos - c - 2] == x[i - pos]);
                    assert(is_digit(exp.skip(2)[i - pos - c - 2]));
                }
                assert(is_digit(s[pos + c + 2]));
                lemma_digits_are_skipped(s, pos + c + 2, pos + n);
            }
        }
    }
}

/// A text that is one numeric literal of the grammar is a document, and its
/// value is the number with that literal.
pub proof fn law_number_documents(t: Seq<char>)
    requires
        is_number_literal(t),
    ensures
        spec_document(t) == Ok::<Json, Failure>(Json::Number(t)),
{
    unfold_value(t, 0, MAX_DEPTH as nat);
    unfold_bare_value(t, 0, MAX_DEPTH as nat);
    law_number_literal_is_scanned(t);
    let (a, b, c) = choose|a: int, b: int, c: int| number_parts(t, a, b, c);
    assert(t.subrange(a, b)[0] == t[a]);
    assert(t[0] == '-' || is_digit(t[0]));
    assert(skip_space(t, 0) == 0);
    assert(skip_space(t, t.len() as int) == t.len());
    assert(t.subrange(0, t.len() as int) =~= t);
}

/// Decoding undoes escaping: where the text holds the escaped form of `t`,
/// followed by a quote or by the end of the text, the body that is scanned
/// there is `t`, and it stops right after the escaped form.
pub proof fn law_escaped_text_decodes(s: Seq<char>, pos: int, t: Seq<char>)
    requires
        0 <= pos,
        pos + escaped(t).len() <= s.len(),
        forall|i: int| 0 <= i < escaped(t).len() ==> s[pos + i] == escaped(t)[i],
        pos + escaped(t).len() < s.len() ==> s[pos + escaped(t).len()] == '"',
    ensures
        spec_body(s, pos) == Ok::<_, Failure>((t, pos + escaped(t).len())),
    decreases t.len(),
{
    if t.len() == 0 {
        assert(t =~= Seq::<char>::empty());
    } else {
        let c = t[0];
        let head = escaped_char(c);
        let tail = escaped(t.skip(1));
        assert(escaped(t) == head + tail);
        assert(s[pos + 0] == escaped(t)[0]);
        assert(escaped(t)[0] == head[0]);
        if head.len() == 2 {
            assert(s[pos + 1] == escaped(t)[1]);
            assert(escaped(t)[1] == head[1]);
        }
        let next = pos + head.len();
        assert forall|i: int| 0 <= i < tail.len() implies s[next + i] == tail[i] by {
            assert(s[pos + (head.len() + i)] == escaped(t)[head.len() + i]);
        }
        law_escaped_text_decodes(s, next, t.skip(1));
        assert(seq![c] + t.skip(1) =~= t);
    }
}

/// A text without quote and backslash is its own escaped form apart from
/// its line feeds; in a string body every such character stands for itself.
pub proof fn law_plain_text_is_verbatim(s: Seq<char>, pos: int, t: Seq<char>)
    requires
        0 <= pos,
        pos + t.len() <= s.len(),
        forall|i: int| 0 <= i < t.len() ==> s[pos + i] == t[i] && t[i] != '"' && t[i] != '\\',
        pos + t.len() < s.len() ==> s[pos + t.len()] == '"',
    ensures
        spec_body(s, pos) == Ok::<_, Failure>((t, pos + t.len())),
    decreases t.len(),
{
    if t.len() == 0 {
        assert(t =~= Seq::<char>::empty());
    } else {
        assert(s[pos + 0] == t[0]);
        assert forall|i: int| 0 <= i < t.skip(1).len() implies s[pos + 1 + i] == t.skip(1)[i]
            && t.skip(1)[i] != '"' && t.skip(1)[i] != '\\' by {
            assert(s[pos + (i + 1)] == t[i + 1]);
        }
        law_plain_text_is_verbatim(s, pos + 1, t.skip(1));
        assert(seq![t[0]] + t.skip(1) =~= t);
    }
}

/// A text in quotes, escaped, is a document, and its value is the string
/// with that text.
pub proof fn law_string_documents(t: Seq<char>)
    ensures
        spec_document(seq!['"'] + escaped(t) + seq!['"']) == Ok::<Json, Failure>(Json::Str(t)),
{
    unfold_value(seq!['"'] + escaped(t) + seq!['"'], 0, MAX_DEPTH as nat);
    unfold_bare_value(seq!['"'] + escaped(t) + seq!['"'], 0, MAX_DEPTH as nat);
    let s = seq!['"'] + escaped(t) + seq!['"'];
    let n = escaped(t).len() as int;
    assert(s.len() == n + 2);
    assert(s[0] == '"');
    assert(s[n + 1] == '"');
    assert forall|i: int| 0 <= i < n implies s[1 + i] == escaped(t)[i] by {}
    law_escaped_text_decodes(s, 1, t);
    assert(skip_space(s, 0) == 0);
    assert(skip_space(s, n + 2) == n + 2);
}

} // verus!
