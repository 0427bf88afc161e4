//! The value parsers: the dispatcher, arrays and objects, each parsed from a
//! place in a sequence of characters.

use crate::errors::JsonError;
use crate::grammar::{
    prepend_elements, prepend_members, spec_bare_value, spec_elements, spec_keyword, spec_member,
    spec_members, spec_value, unfold_bare_value, unfold_elements, unfold_member, unfold_members,
    unfold_value, Scan,
};
use crate::laws::law_scanned_number_is_literal;
use crate::lexer::{
    char_at, digit_at, match_literal_tag, scan_number, scan_quoted_string, skip_whitespace,
};
use crate::text::text_of;
use crate::value::{
    distinct_keys, entry_keys, find_key, items_view, lemma_last_index_of, lemma_members_push,
    lemma_members_update, members_view, Json, Value,
};
use vstd::prelude::*;

verus! {

/// What an executable parser reported, in the terms of the grammar.
pub open spec fn value_scan(r: Result<(Value, usize), JsonError>) -> Scan<Json> {
    match r {
        Ok((value, end)) => Ok((value@, end as int)),
        Err(e) => Err(e@),
    }
}

/// What an executable parser of elements reported, in the terms of the
/// grammar.
pub open spec fn elements_scan(r: Result<(Vec<Value>, usize), JsonError>) -> Scan<Seq<Json>> {
    match r {
        Ok((items, end)) => Ok((items_view(items@), end as int)),
        Err(e) => Err(e@),
    }
}

/// What an executable parser of a member reported, in the terms of the
/// grammar.
pub open spec fn member_scan(r: Result<((String, Value), usize), JsonError>) -> Scan<
    (Seq<char>, Json),
> {
    match r {
        Ok((member, end)) => Ok(((member.0@, member.1@), end as int)),
        Err(e) => Err(e@),
    }
}

/// What an executable parser of members reported, in the terms of the
/// grammar.
pub open spec fn members_scan(r: Result<(Vec<(String, Value)>, usize), JsonError>) -> Scan<
    Map<Seq<char>, Json>,
> {
    match r {
        Ok((entries, end)) => Ok((members_view(entries@), end as int)),
        Err(e) => Err(e@),
    }
}

/// Every value in the list is well formed.
pub open spec fn all_wf(items: Seq<Value>) -> bool {
    forall|i: int| 0 <= i < items.len() ==> (#[trigger] items[i]).wf()
}

/// The names of the entries are distinct and their values well formed.
pub open spec fn entries_wf(entries: Seq<(String, Value)>) -> bool {
    &&& distinct_keys(entry_keys(entries))
    &&& forall|i: int| 0 <= i < entries.len() ==> (#[trigger] entries[i]).1.wf()
}

/// Parses the keyword at `pos`: `true`, `false` or `null`, in any letter
/// case. Fails with `UnexpectedToken` at `pos` if none stands there.
pub fn parse_keyword_at(input: &[char], pos: usize) -> (r: Result<(Value, usize), JsonError>)
    requires
        pos <= input.len(),
    ensures
        value_scan(r) == spec_keyword(input@, pos as int),
        r matches Ok((value, end)) ==> pos < end <= input.len() && value.wf(),
{
    proof {
        reveal_strlit("true");
        reveal_strlit("false");
        reveal_strlit("null");
    }
    match match_literal_tag(input, pos, "true") {
        Ok(end) => return Ok((Value::Bool(true), end)),
        Err(_) => {},
    }
    match match_literal_tag(input, pos, "false") {
        Ok(end) => return Ok((Value::Bool(false), end)),
        Err(_) => {},
    }
    match match_literal_tag(input, pos, "null") {
        Ok(end) => Ok((Value::Null, end)),
        Err(e) => Err(e),
    }
}

/// Parses the value at `pos`, with the whitespace before and after it, and
/// returns it with the index of the first character after that whitespace.
/// `depth` says how many arrays and objects may be open at once inside the
/// value; where the text nests more deeply the result is `NestingTooDeep`.
pub fn parse_value_at(input: &[char], pos: usize, depth: usize) -> (r: Result<
    (Value, usize),
    JsonError,
>)
    requires
        pos <= input.len(),
    ensures
        value_scan(r) == spec_value(input@, pos as int, depth as nat),
        r matches Ok((value, end)) ==> pos <= end <= input.len() && value.wf(),
    decreases depth, 1int,
{
    proof {
        unfold_value(input@, pos as int, depth as nat);
    }
    let start = skip_whitespace(input, pos);
    match parse_bare_value_at(input, start, depth) {
        Ok((value, end)) => Ok((value, skip_whitespace(input, end))),
        Err(e) => Err(e),
    }
}

/// Parses the value that starts exactly at `pos` and returns it with the
/// index of the first character after it.
pub fn parse_bare_value_at(input: &[char], pos: usize, depth: usize) -> (r: Result<
    (Value, usize),
    JsonError,
>)
    requires
        pos <= input.len(),
    ensures
        value_scan(r) == spec_bare_value(input@, pos as int, depth as nat),
        r matches Ok((value, end)) ==> pos < end <= input.len() && value.wf(),
    decreases depth, 0int,
{
    proof {
        unfold_bare_value(input@, pos as int, depth as nat);
    }
    if char_at(input, pos, '-') || digit_at(input, pos) {
        match scan_number(input, pos) {
            Ok(end) => {
                proof {
                    law_scanned_number_is_literal(input@, pos as int);
                }
                Ok((Value::Number(text_of(input, pos, end)), end))
            },
            Err(e) => Err(e),
        }
    } else if char_at(input, pos, '"') {
        match scan_quoted_string(input, pos) {
            Ok((text, end)) => Ok((Value::Str(text), end)),
            Err(e) => Err(e),
        }
    } else if char_at(input, pos, '[') {
        if depth == 0 {
            Err(JsonError::NestingTooDeep(pos))
        } else {
            match parse_elements_at(input, pos + 1, depth - 1) {
                Ok((items, end)) => Ok((Value::Arr(items), end)),
                Err(e) => Err(e),
            }
        }
    } else if char_at(input, pos, '{') {
        if depth == 0 {
            Err(JsonError::NestingTooDeep(pos))
        } else {
            match parse_members_at(input, pos + 1, depth - 1) {
                Ok((entries, end)) => Ok((Value::Obj(entries), end)),
                Err(e) => Err(e),
            }
        }
    } else {
        parse_keyword_at(input, pos)
    }
}

/// Parses the elements of an array from `pos`, the index after the opening
/// bracket, up to and including the closing bracket, and returns them in
/// order with the index after the bracket. Fails with
/// `UnterminatedContainer` where the input ends inside the array and with
/// `UnexpectedToken` where neither a comma nor the bracket follows an
/// element.
pub fn parse_elements_at(input: &[char], pos: usize, depth: usize) -> (r: Result<
    (Vec<Value>, usize),
    JsonError,
>)
    requires
        pos <= input.len(),
    ensures
        elements_scan(r) == spec_elements(input@, pos as int, depth as nat),
        r matches Ok((items, end)) ==> pos < end <= input.len() && all_wf(items@),
    decreases depth, 3int,
{
    let mut items: Vec<Value> = Vec::new();
    let mut cur: usize = pos;
    proof {
        assert(items_view(items@) =~= Seq::<Json>::empty());
        let whole = spec_elements(input@, pos as int, depth as nat);
        if let Ok((all, end)) = whole {
            assert(Seq::<Json>::empty() + all =~= all);
        }
    }
    loop
        invariant
            pos <= cur <= input.len(),
            all_wf(items@),
            spec_elements(input@, pos as int, depth as nat) == prepend_elements(
                items_view(items@),
                spec_elements(input@, cur as int, depth as nat),
            ),
        decreases input.len() - cur,
    {
        proof {
            unfold_elements(input@, cur as int, depth as nat);
        }
        let ghost before = items_view(items@);
        let first = skip_whitespace(input, cur);
        if first >= input.len() {
            return Err(JsonError::UnterminatedContainer(first));
        }
        if input[first] == ']' {
            proof {
                assert(before + Seq::<Json>::empty() =~= before);
            }
            return Ok((items, first + 1));
        }
        match parse_value_at(input, first, depth) {
            Err(e) => {
                return Err(e);
            },
            Ok((value, end)) => {
                if end >= input.len() {
                    return Err(JsonError::UnterminatedContainer(end));
                }
                let c = input[end];
                if c != ']' && c != ',' {
                    return Err(JsonError::UnexpectedToken(end));
                }
                let ghost model = value@;
                items.push(value);
                proof {
                    assert(items_view(items@) =~= before.push(model));
                    assert(before + seq![model] =~= before.push(model));
                    if c == ',' {
                        let rest = spec_elements(input@, end + 1, depth as nat);
                        if let Ok((tail, stop)) = rest {
                            assert(before + (seq![model] + tail) =~= before.push(model) + tail);
                        }
                    }
                }
                if c == ']' {
                    return Ok((items, end + 1));
                }
                cur = end + 1;
            },
        }
    }
}

/// Parses the member at `pos`: a quoted name, a colon and a value, with
/// whitespace around each. Fails with `UnexpectedToken` where the name or
/// the colon is missing.
pub fn parse_member_at(input: &[char], pos: usize, depth: usize) -> (r: Result<
    ((String, Value), usize),
    JsonError,
>)
    requires
        pos <= input.len(),
    ensures
        member_scan(r) == spec_member(input@, pos as int, depth as nat),
        r matches Ok((member, end)) ==> pos < end <= input.len() && member.1.wf(),
    decreases depth, 2int,
{
    proof {
        unfold_member(input@, pos as int, depth as nat);
    }
    let start = skip_whitespace(input, pos);
    match scan_quoted_string(input, start) {
        Err(e) => Err(e),
        Ok((name, name_end)) => {
            let colon = skip_whitespace(input, name_end);
            if !char_at(input, colon, ':') {
                return Err(JsonError::UnexpectedToken(colon));
            }
            match parse_value_at(input, colon + 1, depth) {
                Ok((value, end)) => Ok(((name, value), end)),
                Err(e) => Err(e),
            }
        },
    }
}

/// Parses the members of an object from `pos`, the index after the opening
/// brace, up to and including the closing brace, and returns them with the
/// index after the brace. Each name is listed once: where the text gives a
/// name twice, the later value stands. Fails with `UnterminatedContainer`
/// where the input ends inside the object and with `UnexpectedToken` where
/// neither a comma nor the brace follows a member.
pub fn parse_members_at(input: &[char], pos: usize, depth: usize) -> (r: Result<
    (Vec<(String, Value)>, usize),
    JsonError,
>)
    requires
        pos <= input.len(),
    ensures
        members_scan(r) == spec_members(input@, pos as int, depth as nat),
        r matches Ok((entries, end)) ==> pos < end <= input.len() && entries_wf(entries@),
    decreases depth, 3int,
{
    let mut entries: Vec<(String, Value)> = Vec::new();
    let mut cur: usize = pos;
    proof {
        assert(members_view(entries@) =~= Map::<Seq<char>, Json>::empty());
        let whole = spec_members(input@, pos as int, depth as nat);
        if let Ok((all, end)) = whole {
            assert(Map::<Seq<char>, Json>::empty().union_prefer_right(all) =~= all);
        }
    }
    loop
        invariant
            pos <= cur <= input.len(),
            entries_wf(entries@),
            spec_members(input@, pos as int, depth as nat) == prepend_members(
                members_view(entries@),
                spec_members(input@, cur as int, depth as nat),
            ),
        decreases input.len() - cur,
    {
        proof {
            unfold_members(input@, cur as int, depth as nat);
        }
        let ghost before = members_view(entries@);
        let first = skip_whitespace(input, cur);
        if first >= input.len() {
            return Err(JsonError::UnterminatedContainer(first));
        }
        if input[first] == '}' {
            proof {
                assert(before.union_prefer_right(Map::<Seq<char>, Json>::empty()) =~= before);
            }
            return Ok((entries, first + 1));
        }
        match parse_member_at(input, first, depth) {
            Err(e) => {
                return Err(e);
            },
            Ok((member, end)) => {
                if end >= input.len() {
                    return Err(JsonError::UnterminatedContainer(end));
                }
                let c = input[end];
                if c != '}' && c != ',' {
                    return Err(JsonError::UnexpectedToken(end));
                }
                let ghost name = member.0@;
                let ghost model = member.1@;
                let ghost old_entries = entries@;
                proof {
                    lemma_last_index_of(entry_keys(old_entries), name);
                }
                match find_key(&entries, &member.0) {
                    Some(j) => {
                        proof {
                            lemma_members_update(old_entries, j as int, member);
                        }
                        entries.set(j, member);
                    },
                    None => {
                        proof {
                            lemma_members_push(old_entries, member);
                        }
                        entries.push(member);
                    },
                }
                proof {
                    assert(members_view(entries@) == before.insert(name, model));
                    assert(before.union_prefer_right(map![name => model]) =~= before.insert(
                        name,
                        model,
                    ));
                    if c == ',' {
                        let rest = spec_members(input@, end + 1, depth as nat);
                        if let Ok((tail, stop)) = rest {
                            assert(before.union_prefer_right(
                                map![name => model].union_prefer_right(tail),
                            ) =~= before.insert(name, model).union_prefer_right(tail));
                        }
                    }
                }
                if c == '}' {
                    return Ok((entries, end + 1));
                }
                cur = end + 1;
            },
        }
    }
}

} // verus!
