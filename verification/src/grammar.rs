//! The grammar, as specification functions.
//!
//! A text is a sequence of characters and a place in it is an index. Each
//! function says what stands at a place: either what was recognised together
//! with the index at which it ends, or a failure.

use crate::errors::{ErrorKind, Failure};
use crate::value::Json;
use vstd::prelude::*;

verus! {

/// How many arrays and objects may be open at once. A text that nests more
/// deeply is rejected.
pub const MAX_DEPTH: usize = 128;

/// What a scanner reports: the thing recognised and the index of the first
/// character after it, or why nothing was recognised.
pub type Scan<T> = Result<(T, int), Failure>;

/// The failure of the given kind at the given index.
pub open spec fn failure<T>(kind: ErrorKind, at: int) -> Result<T, Failure> {
    Err(Failure { kind, at })
}

/// Whether `s` has the character `c` at index `i`.
pub open spec fn has_char(s: Seq<char>, i: int, c: char) -> bool {
    0 <= i < s.len() && s[i] == c
}

// ---------------------------------------------------------------------------
// Whitespace
// ---------------------------------------------------------------------------

/// Space, tab, carriage return and line feed.
pub open spec fn is_space(c: char) -> bool {
    c == ' ' || c == '\t' || c == '\r' || c == '\n'
}

/// The index of the first character at or after `pos` that is not
/// whitespace, or the length of `s` if there is none.
pub open spec fn skip_space(s: Seq<char>, pos: int) -> int
    decreases s.len() - pos,
{
    if 0 <= pos < s.len() && is_space(s[pos]) {
        skip_space(s, pos + 1)
    } else {
        pos
    }
}

// ---------------------------------------------------------------------------
// Keywords
// ---------------------------------------------------------------------------

/// Whether two characters are the same, or the same ASCII letter in
/// different case.
pub open spec fn same_letter(a: char, b: char) -> bool {
    ||| a == b
    ||| 'A' <= a <= 'Z' && b as u32 == a as u32 + 32
    ||| 'A' <= b <= 'Z' && a as u32 == b as u32 + 32
}

/// Whether the characters of `s` from `pos` on spell `tag`, letter case
/// aside.
pub open spec fn has_tag(s: Seq<char>, pos: int, tag: Seq<char>) -> bool {
    &&& 0 <= pos
    &&& pos + tag.len() <= s.len()
    &&& forall|i: int| 0 <= i < tag.len() ==> same_letter(#[trigger] s[pos + i], tag[i])
}

/// The keyword at `pos`: `true`, `false` or `null`, in any letter case.
pub open spec fn spec_keyword(s: Seq<char>, pos: int) -> Scan<Json> {
    if has_tag(s, pos, "true"@) {
        Ok((Json::Bool(true), pos + 4))
    } else if has_tag(s, pos, "false"@) {
        Ok((Json::Bool(false), pos + 5))
    } else if has_tag(s, pos, "null"@) {
        Ok((Json::Null, pos + 4))
    } else {
        failure(ErrorKind::UnexpectedToken, pos)
    }
}

/// The boolean keyword at `pos`.
pub open spec fn spec_bool(s: Seq<char>, pos: int) -> Scan<bool> {
    if has_tag(s, pos, "true"@) {
        Ok((true, pos + 4))
    } else if has_tag(s, pos, "false"@) {
        Ok((false, pos + 5))
    } else {
        failure(ErrorKind::UnexpectedToken, pos)
    }
}

// ---------------------------------------------------------------------------
// Numbers
// ---------------------------------------------------------------------------

/// The decimal digits.
pub open spec fn is_digit(c: char) -> bool {
    '0' <= c <= '9'
}

/// Whether `s` has a digit at index `i`.
pub open spec fn has_digit(s: Seq<char>, i: int) -> bool {
    0 <= i < s.len() && is_digit(s[i])
}

/// The index of the first character at or after `pos` that is not a digit,
/// or the length of `s` if there is none.
pub open spec fn skip_digits(s: Seq<char>, pos: int) -> int
    decreases s.len() - pos,
{
    if has_digit(s, pos) {
        skip_digits(s, pos + 1)
    } else {
        pos
    }
}

/// Where the integer part that starts at `pos` ends: a lone zero, or a run
/// of digits that does not start with zero. `pos` holds a digit.
pub open spec fn integer_end(s: Seq<char>, pos: int) -> int {
    if has_char(s, pos, '0') {
        pos + 1
    } else {
        skip_digits(s, pos)
    }
}

/// Where the fraction that may start at `pos` ends: a point and at least one
/// digit are taken together, a point without a digit is not taken.
pub open spec fn fraction_end(s: Seq<char>, pos: int) -> int {
    if has_char(s, pos, '.') && has_digit(s, pos + 1) {
        skip_digits(s, pos + 1)
    } else {
        pos
    }
}

/// Where the exponent that may start at `pos` ends: `e` or `E`, an optional
/// sign and at least one digit are taken together, or nothing is.
pub open spec fn exponent_end(s: Seq<char>, pos: int) -> int {
    if has_char(s, pos, 'e') || has_char(s, pos, 'E') {
        let digits = if has_char(s, pos + 1, '+') || has_char(s, pos + 1, '-') {
            pos + 2
        } else {
            pos + 1
        };
        if has_digit(s, digits) {
            skip_digits(s, digits)
        } else {
            pos
        }
    } else {
        pos
    }
}

/// The numeric literal at `pos`: an optional minus sign, an integer part,
/// an optional fraction and an optional exponent. The result is the index
/// at which the literal ends; the literal is the text up to there.
pub open spec fn spec_number(s: Seq<char>, pos: int) -> Result<int, Failure> {
    let first = if has_char(s, pos, '-') {
        pos + 1
    } else {
        pos
    };
    if has_digit(s, first) {
        Ok(exponent_end(s, fraction_end(s, integer_end(s, first))))
    } else {
        failure(ErrorKind::UnexpectedToken, first)
    }
}

/// Whether every character of `t` is a digit.
pub open spec fn all_digits(t: Seq<char>) -> bool {
    forall|i: int| 0 <= i < t.len() ==> is_digit(#[trigger] t[i])
}

/// An integer part: a lone zero, or digits that do not start with zero.
pub open spec fn is_integer_part(t: Seq<char>) -> bool {
    t.len() >= 1 && all_digits(t) && (t[0] == '0' ==> t.len() == 1)
}

/// A fraction: a point and at least one digit.
pub open spec fn is_fraction(t: Seq<char>) -> bool {
    t.len() >= 2 && t[0] == '.' && all_digits(t.skip(1))
}

/// An exponent: `e` or `E`, an optional sign and at least one digit.
pub open spec fn is_exponent(t: Seq<char>) -> bool {
    &&& t.len() >= 2
    &&& t[0] == 'e' || t[0] == 'E'
    &&& all_digits(t.skip(1)) || (t.len() >= 3 && (t[1] == '+' || t[1] == '-') && all_digits(
        t.skip(2),
    ))
}

/// Whether the indices `a`, `b` and `c` cut `t` into an optional minus
/// sign, an integer part, an optional fraction and an optional exponent.
pub open spec fn number_parts(t: Seq<char>, a: int, b: int, c: int) -> bool {
    &&& 0 <= a <= b <= c <= t.len()
    &&& a == 0 || (a == 1 && t[0] == '-')
    &&& is_integer_part(t.subrange(a, b))
    &&& b == c || is_fraction(t.subrange(b, c))
    &&& c == t.len() || is_exponent(t.subrange(c, t.len() as int))
}

/// Whether `t` is a numeric literal of the JSON grammar.
pub open spec fn is_number_literal(t: Seq<char>) -> bool {
    exists|a: int, b: int, c: int| number_parts(t, a, b, c)
}

// ---------------------------------------------------------------------------
// Strings
// ---------------------------------------------------------------------------

/// The characters that may follow a backslash.
pub open spec fn is_escapable(c: char) -> bool {
    c == '"' || c == '\\' || c == 'n'
}

/// The character that a backslash and `c` stand for.
pub open spec fn unescape(c: char) -> char {
    if c == 'n' {
        '\n'
    } else {
        c
    }
}

/// Puts `prefix` in front of what a scan recognised.
pub open spec fn prepend(prefix: Seq<char>, rest: Scan<Seq<char>>) -> Scan<Seq<char>> {
    match rest {
        Ok((text, end)) => Ok((prefix + text, end)),
        Err(f) => Err(f),
    }
}

/// The body of a string from `pos` on: the decoded text up to the first
/// quote that no backslash escapes, or up to the end of the input, and the
/// index at which the body stops. Every character but quote and backslash
/// stands for itself; a backslash must be followed by a quote, a backslash
/// or `n`.
pub open spec fn spec_body(s: Seq<char>, pos: int) -> Scan<Seq<char>>
    decreases s.len() - pos,
{
    if pos < 0 || pos >= s.len() || s[pos] == '"' {
        Ok((Seq::empty(), pos))
    } else if s[pos] != '\\' {
        prepend(seq![s[pos]], spec_body(s, pos + 1))
    } else if pos + 1 >= s.len() {
        failure(ErrorKind::UnterminatedString, pos + 1)
    } else if is_escapable(s[pos + 1]) {
        prepend(seq![unescape(s[pos + 1])], spec_body(s, pos + 2))
    } else {
        failure(ErrorKind::InvalidEscape, pos)
    }
}

/// How a character is written inside quotes: quote, backslash and line
/// feed behind a backslash, every other character as it is.
pub open spec fn escaped_char(c: char) -> Seq<char> {
    if c == '"' {
        seq!['\\', '"']
    } else if c == '\\' {
        seq!['\\', '\\']
    } else if c == '\n' {
        seq!['\\', 'n']
    } else {
        seq![c]
    }
}

/// How a text is written inside quotes: each character as `escaped_char`
/// writes it.
pub open spec fn escaped(t: Seq<char>) -> Seq<char>
    decreases t.len(),
{
    if t.len() == 0 {
        Seq::empty()
    } else {
        escaped_char(t[0]) + escaped(t.skip(1))
    }
}

/// The quoted string at `pos`: a quote, a body and the closing quote.
pub open spec fn spec_quoted(s: Seq<char>, pos: int) -> Scan<Seq<char>> {
    if !has_char(s, pos, '"') {
        failure(ErrorKind::UnexpectedToken, pos)
    } else {
        match spec_body(s, pos + 1) {
            Ok((text, end)) => if has_char(s, end, '"') {
                Ok((text, end + 1))
            } else {
                failure(ErrorKind::UnterminatedString, end)
            },
            Err(f) => Err(f),
        }
    }
}

// ---------------------------------------------------------------------------
// Values
// ---------------------------------------------------------------------------
//
// The five functions of values are opaque, so that a proof meets their
// definitions only where it asks for them: `unfold_value` and its fellows
// give the definition at one place.

/// Puts `prefix` in front of the elements that a scan recognised.
pub open spec fn prepend_elements(prefix: Seq<Json>, rest: Scan<Seq<Json>>) -> Scan<Seq<Json>> {
    match rest {
        Ok((items, end)) => Ok((prefix + items, end)),
        Err(f) => Err(f),
    }
}

/// Puts the members of `prefix` in front of the members that a scan
/// recognised: where both have a name, the later member stands.
pub open spec fn prepend_members(prefix: Map<Seq<char>, Json>, rest: Scan<Map<Seq<char>, Json>>) -> Scan<
    Map<Seq<char>, Json>,
> {
    match rest {
        Ok((members, end)) => Ok((prefix.union_prefer_right(members), end)),
        Err(f) => Err(f),
    }
}

/// The value at `pos`, with the whitespace before and after it. `depth`
/// says how many more arrays and objects may be opened around what is
/// inside this value.
#[verifier::opaque]
pub open spec fn spec_value(s: Seq<char>, pos: int, depth: nat) -> Scan<Json>
    decreases depth, 1int, s.len() - pos,
{
    match spec_bare_value(s, skip_space(s, pos), depth) {
        Ok((value, end)) => Ok((value, skip_space(s, end))),
        Err(f) => Err(f),
    }
}

/// The value that starts exactly at `pos`. Its first character decides what
/// it is: a minus sign or a digit starts a number, a quote a string, a
/// bracket an array, a brace an object, anything else must be a keyword.
#[verifier::opaque]
pub open spec fn spec_bare_value(s: Seq<char>, pos: int, depth: nat) -> Scan<Json>
    decreases depth, 0int, s.len() - pos,
{
    if has_char(s, pos, '-') || has_digit(s, pos) {
        match spec_number(s, pos) {
            Ok(end) => Ok((Json::Number(s.subrange(pos, end)), end)),
            Err(f) => Err(f),
        }
    } else if has_char(s, pos, '"') {
        match spec_quoted(s, pos) {
            Ok((text, end)) => Ok((Json::Str(text), end)),
            Err(f) => Err(f),
        }
    } else if has_char(s, pos, '[') {
        if depth == 0 {
            failure(ErrorKind::NestingTooDeep, pos)
        } else {
            match spec_elements(s, pos + 1, (depth - 1) as nat) {
                Ok((items, end)) => Ok((Json::Arr(items), end)),
                Err(f) => Err(f),
            }
        }
    } else if has_char(s, pos, '{') {
        if depth == 0 {
            failure(ErrorKind::NestingTooDeep, pos)
        } else {
            match spec_members(s, pos + 1, (depth - 1) as nat) {
                Ok((members, end)) => Ok((Json::Obj(members), end)),
                Err(f) => Err(f),
            }
        }
    } else {
        spec_keyword(s, pos)
    }
}

/// The elements of an array from `pos` on, up to and including the closing
/// bracket. Elements are separated by commas; one comma may follow the last
/// element. (No value ends before it starts: the comparison `end < pos` only
/// shows that the recursion ends.)
#[verifier::opaque]
pub open spec fn spec_elements(s: Seq<char>, pos: int, depth: nat) -> Scan<Seq<Json>>
    decreases depth, 3int, s.len() - pos,
{
    let first = skip_space(s, pos);
    if first < 0 || first >= s.len() {
        failure(ErrorKind::UnterminatedContainer, first)
    } else if s[first] == ']' {
        Ok((Seq::empty(), first + 1))
    } else {
        match spec_value(s, first, depth) {
            Ok((value, end)) => if end < pos || end >= s.len() {
                failure(ErrorKind::UnterminatedContainer, end)
            } else if s[end] == ']' {
                Ok((seq![value], end + 1))
            } else if s[end] == ',' {
                prepend_elements(seq![value], spec_elements(s, end + 1, depth))
            } else {
                failure(ErrorKind::UnexpectedToken, end)
            },
            Err(f) => Err(f),
        }
    }
}

/// The member at `pos`: a quoted name, a colon and a value, with whitespace
/// around each.
#[verifier::opaque]
pub open spec fn spec_member(s: Seq<char>, pos: int, depth: nat) -> Scan<(Seq<char>, Json)>
    decreases depth, 2int, s.len() - pos,
{
    match spec_quoted(s, skip_space(s, pos)) {
        Ok((name, name_end)) => {
            let colon = skip_space(s, name_end);
            if has_char(s, colon, ':') {
                match spec_value(s, colon + 1, depth) {
                    Ok((value, end)) => Ok(((name, value), end)),
                    Err(f) => Err(f),
                }
            } else {
                failure(ErrorKind::UnexpectedToken, colon)
            }
        },
        Err(f) => Err(f),
    }
}

/// The members of an object from `pos` on, up to and including the closing
/// brace. Members are separated by commas; one comma may follow the last
/// member. (No member ends before it starts: the comparison `end < pos` only
/// shows that the recursion ends.)
#[verifier::opaque]
pub open spec fn spec_members(s: Seq<char>, pos: int, depth: nat) -> Scan<Map<Seq<char>, Json>>
    decreases depth, 3int, s.len() - pos,
{
    let first = skip_space(s, pos);
    if first < 0 || first >= s.len() {
        failure(ErrorKind::UnterminatedContainer, first)
    } else if s[first] == '}' {
        Ok((Map::empty(), first + 1))
    } else {
        match spec_member(s, first, depth) {
            Ok(((name, value), end)) => if end < pos || end >= s.len() {
                failure(ErrorKind::UnterminatedContainer, end)
            } else if s[end] == '}' {
                Ok((map![name => value], end + 1))
            } else if s[end] == ',' {
                prepend_members(map![name => value], spec_members(s, end + 1, depth))
            } else {
                failure(ErrorKind::UnexpectedToken, end)
            },
            Err(f) => Err(f),
        }
    }
}

/// What `spec_value` is at one place: its definition, one step deep.
pub proof fn unfold_value(s: Seq<char>, pos: int, depth: nat)
    ensures
        spec_value(s, pos, depth) == ({
            match spec_bare_value(s, skip_space(s, pos), depth) {
                Ok((value, end)) => Ok((value, skip_space(s, end))),
                Err(f) => Err(f),
            }
        }),
{
    reveal(spec_value);
    reveal(spec_bare_value);
    reveal(spec_elements);
    reveal(spec_member);
    reveal(spec_members);
}

/// What `spec_bare_value` is at one place: its definition, one step deep.
pub proof fn unfold_bare_value(s: Seq<char>, pos: int, depth: nat)
    ensures
        spec_bare_value(s, pos, depth) == ({
            if has_char(s, pos, '-') || has_digit(s, pos) {
                match spec_number(s, pos) {
                    Ok(end) => Ok((Json::Number(s.subrange(pos, end)), end)),
                    Err(f) => Err(f),
                }
            } else if has_char(s, pos, '"') {
                match spec_quoted(s, pos) {
                    Ok((text, end)) => Ok((Json::Str(text), end)),
                    Err(f) => Err(f),
                }
            } else if has_char(s, pos, '[') {
                if depth == 0 {
                    failure(ErrorKind::NestingTooDeep, pos)
                } else {
                    match spec_elements(s, pos + 1, (depth - 1) as nat) {
                        Ok((items, end)) => Ok((Json::Arr(items), end)),
                        Err(f) => Err(f),
                    }
                }
            } else if has_char(s, pos, '{') {
                if depth == 0 {
                    failure(ErrorKind::NestingTooDeep, pos)
                } else {
                    match spec_members(s, pos + 1, (depth - 1) as nat) {
                        Ok((members, end)) => Ok((Json::Obj(members), end)),
                        Err(f) => Err(f),
                    }
                }
            } else {
                spec_keyword(s, pos)
            }
        }),
{
    reveal(spec_value);
    reveal(spec_bare_value);
    reveal(spec_elements);
    reveal(spec_member);
    reveal(spec_members);
}

/// What `spec_elements` is at one place: its definition, one step deep.
pub proof fn unfold_elements(s: Seq<char>, pos: int, depth: nat)
    ensures
        spec_elements(s, pos, depth) == ({
            let first = skip_space(s, pos);
            if first < 0 || first >= s.len() {
                failure(ErrorKind::UnterminatedContainer, first)
            } else if s[first] == ']' {
                Ok((Seq::empty(), first + 1))
            } else {
                match spec_value(s, first, depth) {
                    Ok((value, end)) => if end < pos || end >= s.len() {
                        failure(ErrorKind::UnterminatedContainer, end)
                    } else if s[end] == ']' {
                        Ok((seq![value], end + 1))
                    } else if s[end] == ',' {
                        prepend_elements(seq![value], spec_elements(s, end + 1, depth))
                    } else {
                        failure(ErrorKind::UnexpectedToken, end)
                    },
                    Err(f) => Err(f),
                }
            }
        }),
{
    reveal(spec_value);
    reveal(spec_bare_value);
    reveal(spec_elements);
    reveal(spec_member);
    reveal(spec_members);
}

/// What `spec_member` is at one place: its definition, one step deep.
pub proof fn unfold_member(s: Seq<char>, pos: int, depth: nat)
    ensures
        spec_member(s, pos, depth) == ({
            match spec_quoted(s, skip_space(s, pos)) {
                Ok((name, name_end)) => {
                    let colon = skip_space(s, name_end);
                    if has_char(s, colon, ':') {
                        match spec_value(s, colon + 1, depth) {
                            Ok((value, end)) => Ok(((name, value), end)),
                            Err(f) => Err(f),
                        }
                    } else {
                        failure(ErrorKind::UnexpectedToken, colon)
                    }
                },
                Err(f) => Err(f),
            }
        }),
{
    reveal(spec_value);
    reveal(spec_bare_value);
    reveal(spec_elements);
    reveal(spec_member);
    reveal(spec_members);
}

/// What `spec_members` is at one place: its definition, one step deep.
pub proof fn unfold_members(s: Seq<char>, pos: int, depth: nat)
    ensures
        spec_members(s, pos, depth) == ({
            let first = skip_space(s, pos);
            if first < 0 || first >= s.len() {
                failure(ErrorKind::UnterminatedContainer, first)
            } else if s[first] == '}' {
                Ok((Map::empty(), first + 1))
            } else {
                match spec_member(s, first, depth) {
                    Ok(((name, value), end)) => if end < pos || end >= s.len() {
                        failure(ErrorKind::UnterminatedContainer, end)
                    } else if s[end] == '}' {
                        Ok((map![name => value], end + 1))
                    } else if s[end] == ',' {
                        prepend_members(map![name => value], spec_members(s, end + 1, depth))
                    } else {
                        failure(ErrorKind::UnexpectedToken, end)
                    },
                    Err(f) => Err(f),
                }
            }
        }),
{
    reveal(spec_value);
    reveal(spec_bare_value);
    reveal(spec_elements);
    reveal(spec_member);
    reveal(spec_members);
}

/// The array at `pos`, with the whitespace before and after it. `depth`
/// counts the array itself, as it does for a value.
pub open spec fn spec_array(s: Seq<char>, pos: int, depth: nat) -> Scan<Seq<Json>> {
    let open = skip_space(s, pos);
    if !has_char(s, open, '[') {
        failure(ErrorKind::UnexpectedToken, open)
    } else if depth == 0 {
        failure(ErrorKind::NestingTooDeep, open)
    } else {
        match spec_elements(s, open + 1, (depth - 1) as nat) {
            Ok((items, end)) => Ok((items, skip_space(s, end))),
            Err(f) => Err(f),
        }
    }
}

/// The object at `pos`, with the whitespace before and after it. `depth`
/// counts the object itself, as it does for a value.
pub open spec fn spec_object(s: Seq<char>, pos: int, depth: nat) -> Scan<Map<Seq<char>, Json>> {
    let open = skip_space(s, pos);
    if !has_char(s, open, '{') {
        failure(ErrorKind::UnexpectedToken, open)
    } else if depth == 0 {
        failure(ErrorKind::NestingTooDeep, open)
    } else {
        match spec_members(s, open + 1, (depth - 1) as nat) {
            Ok((members, end)) => Ok((members, skip_space(s, end))),
            Err(f) => Err(f),
        }
    }
}

/// What is left of the text `s` after a scan from its start, with what the
/// scan recognised.
pub open spec fn with_rest<T>(s: Seq<char>, scan: Scan<T>) -> Result<(Seq<char>, T), Failure> {
    match scan {
        Ok((item, end)) => Ok((s.skip(end), item)),
        Err(f) => Err(f),
    }
}

/// The whitespace at the start of `s`: what follows it, and the whitespace
/// itself.
pub open spec fn spec_space(s: Seq<char>) -> (Seq<char>, Seq<char>) {
    (s.skip(skip_space(s, 0)), s.take(skip_space(s, 0)))
}

/// The body of a string at the start of `s`, as it is written: what follows
/// it, and the body with its escapes left as they are.
pub open spec fn spec_raw_body(s: Seq<char>) -> Result<(Seq<char>, Seq<char>), Failure> {
    match spec_body(s, 0) {
        Ok((_, end)) => Ok((s.skip(end), s.take(end))),
        Err(f) => Err(f),
    }
}

/// The numeric literal at the start of `s`: what follows it, and the
/// literal.
pub open spec fn spec_literal(s: Seq<char>) -> Result<(Seq<char>, Seq<char>), Failure> {
    match spec_number(s, 0) {
        Ok(end) => Ok((s.skip(end), s.take(end))),
        Err(f) => Err(f),
    }
}

/// A failure, moved `k` characters to the right.
pub open spec fn moved(f: Failure, k: int) -> Failure {
    Failure { kind: f.kind, at: f.at + k }
}

/// What a scan reports, moved `k` characters to the right.
pub open spec fn shifted<T>(scan: Scan<T>, k: int) -> Scan<T> {
    match scan {
        Ok((item, end)) => Ok((item, end + k)),
        Err(f) => Err(moved(f, k)),
    }
}

/// Whether every character of `t` is whitespace.
pub open spec fn all_space(t: Seq<char>) -> bool {
    forall|i: int| 0 <= i < t.len() ==> is_space(#[trigger] t[i])
}

/// What a whole text denotes: one value, with whitespace around it and
/// nothing else.
pub open spec fn spec_document(s: Seq<char>) -> Result<Json, Failure> {
    match spec_value(s, 0, MAX_DEPTH as nat) {
        Ok((value, end)) => if end == s.len() {
            Ok(value)
        } else {
            failure(ErrorKind::TrailingInput, end)
        },
        Err(f) => Err(f),
    }
}

} // verus!
