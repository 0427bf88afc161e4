//! The value tree that parsing produces, and its mathematical model.

use crate::grammar::is_number_literal;
use vstd::prelude::*;

verus! {

/// The mathematical model of a JSON value. A number is modelled by its
/// literal, an object by a finite map from member names to values.
pub enum Json {
    Null,
    Bool(bool),
    Str(Seq<char>),
    Number(Seq<char>),
    Arr(Seq<Json>),
    Obj(Map<Seq<char>, Json>),
}

/// A JSON value as the parser builds it.
///
/// `Str` holds the decoded text of a string. `Number` holds the numeric
/// literal exactly as it was written; turning it into a binary number is
/// left to the caller, and two literals of one quantity are two values.
/// `Obj` holds the members as a list of name and value; the member of a
/// name is the last entry with that name.
#[derive(Debug)]
pub enum Value {
    Null,
    Bool(bool),
    Str(String),
    Number(String),
    Arr(Vec<Value>),
    Obj(Vec<(String, Value)>),
}

/// The member names of a list of entries, in order.
pub open spec fn entry_keys(entries: Seq<(String, Value)>) -> Seq<Seq<char>> {
    Seq::new(entries.len(), |i: int| entries[i].0@)
}

/// The index of the last occurrence of `key` in `keys`, or -1 if there is none.
pub open spec fn last_index_of(keys: Seq<Seq<char>>, key: Seq<char>) -> int
    decreases keys.len(),
{
    if keys.len() == 0 {
        -1
    } else if keys.last() == key {
        keys.len() - 1
    } else {
        last_index_of(keys.drop_last(), key)
    }
}

/// No name occurs twice in `keys`.
pub open spec fn distinct_keys(keys: Seq<Seq<char>>) -> bool {
    forall|i: int, j: int| 0 <= i < j < keys.len() ==> keys[i] != keys[j]
}

/// The models of a list of values, in order.
pub open spec fn items_view(items: Seq<Value>) -> Seq<Json>
    decreases items,
{
    Seq::new(
        items.len(),
        |i: int|
            if 0 <= i < items.len() {
                items[i]@
            } else {
                Json::Null
            },
    )
}

/// The map that a list of entries stands for: a name is mapped to the model
/// of the value in the last entry that has that name.
pub open spec fn members_view(entries: Seq<(String, Value)>) -> Map<Seq<char>, Json>
    decreases entries,
{
    Map::new(
        |k: Seq<char>| last_index_of(entry_keys(entries), k) >= 0,
        |k: Seq<char>|
            {
                let j = last_index_of(entry_keys(entries), k);
                if 0 <= j < entries.len() {
                    entries[j].1@
                } else {
                    Json::Null
                }
            },
    )
}

impl View for Value {
    type V = Json;

    open spec fn view(&self) -> Json
        decreases self,
    {
        match self {
            Value::Null => Json::Null,
            Value::Bool(b) => Json::Bool(*b),
            Value::Str(s) => Json::Str(s@),
            Value::Number(s) => Json::Number(s@),
            Value::Arr(items) => Json::Arr(items_view(items@)),
            Value::Obj(entries) => Json::Obj(members_view(entries@)),
        }
    }
}

impl Value {
    /// Every number in the tree holds a numeric literal of the grammar, and
    /// every object names each of its members once.
    pub open spec fn wf(&self) -> bool
        decreases self,
    {
        match self {
            Value::Number(literal) => is_number_literal(literal@),
            Value::Arr(items) => forall|i: int| 0 <= i < items.len() ==> (#[trigger] items[i]).wf(),
            Value::Obj(entries) => {
                &&& distinct_keys(entry_keys(entries@))
                &&& forall|i: int| 0 <= i < entries.len() ==> (#[trigger] entries[i]).1.wf()
            },
            _ => true,
        }
    }
}

/// `last_index_of` finds the last occurrence: the key stands at the index it
/// returns and nowhere after it, and -1 means that it stands nowhere.
pub proof fn lemma_last_index_of(keys: Seq<Seq<char>>, key: Seq<char>)
    ensures
        -1 <= last_index_of(keys, key) < keys.len(),
        last_index_of(keys, key) >= 0 ==> keys[last_index_of(keys, key)] == key,
        forall|i: int| last_index_of(keys, key) < i < keys.len() ==> keys[i] != key,
    decreases keys.len(),
{
    if keys.len() > 0 && keys.last() != key {
        lemma_last_index_of(keys.drop_last(), key);
        assert forall|i: int| last_index_of(keys, key) < i < keys.len() implies keys[i] != key by {
            if i < keys.len() - 1 {
                assert(keys.drop_last()[i] == keys[i]);
            }
        }
    }
}

/// Appending an entry gives its name the new value and leaves every other
/// name as it was.
pub proof fn lemma_members_push(entries: Seq<(String, Value)>, entry: (String, Value))
    ensures
        entry_keys(entries.push(entry)) == entry_keys(entries).push(entry.0@),
        members_view(entries.push(entry)) == members_view(entries).insert(entry.0@, entry.1@),
{
    let keys = entry_keys(entries);
    let after = entries.push(entry);
    assert(entry_keys(after) =~= keys.push(entry.0@));
    assert(entry_keys(after).drop_last() =~= keys);
    assert forall|k: Seq<char>|
        last_index_of(entry_keys(after), k) == (if k == entry.0@ {
            entries.len() as int
        } else {
            last_index_of(keys, k)
        }) by {}
    assert forall|k: Seq<char>| k != entry.0@ && last_index_of(keys, k) >= 0 implies members_view(
        after,
    )[k] == members_view(entries)[k] by {
        lemma_last_index_of(keys, k);
    }
    assert(members_view(after) =~= members_view(entries).insert(entry.0@, entry.1@));
}

/// Replacing the entry that gives a name its value, by an entry of the same
/// name, gives that name the new value and leaves every other name as it was.
pub proof fn lemma_members_update(entries: Seq<(String, Value)>, j: int, entry: (String, Value))
    requires
        0 <= j < entries.len(),
        j == last_index_of(entry_keys(entries), entry.0@),
    ensures
        entry_keys(entries.update(j, entry)) == entry_keys(entries),
        members_view(entries.update(j, entry)) == members_view(entries).insert(entry.0@, entry.1@),
{
    let keys = entry_keys(entries);
    let after = entries.update(j, entry);
    lemma_last_index_of(keys, entry.0@);
    assert(entry_keys(after) =~= keys);
    assert forall|k: Seq<char>| k != entry.0@ && last_index_of(keys, k) >= 0 implies members_view(
        after,
    )[k] == members_view(entries)[k] by {
        lemma_last_index_of(keys, k);
    }
    assert(members_view(after) =~= members_view(entries).insert(entry.0@, entry.1@));
}

/// The position of the entry that gives `key` its value, if there is one.
pub fn find_key(entries: &Vec<(String, Value)>, key: &String) -> (r: Option<usize>)
    ensures
        match r {
            Some(j) => j as int == last_index_of(entry_keys(entries@), key@),
            None => last_index_of(entry_keys(entries@), key@) == -1,
        },
{
    let mut i: usize = entries.len();
    proof {
        lemma_last_index_of(entry_keys(entries@), key@);
    }
    while i > 0
        invariant
            i <= entries.len(),
            forall|k: int| i <= k < entries.len() ==> entry_keys(entries@)[k] != key@,
            -1 <= last_index_of(entry_keys(entries@), key@) < entries.len(),
            last_index_of(entry_keys(entries@), key@) >= 0 ==> entry_keys(entries@)[last_index_of(
                entry_keys(entries@),
                key@,
            )] == key@,
            forall|k: int|
                last_index_of(entry_keys(entries@), key@) < k < entries.len() ==> entry_keys(
                    entries@,
                )[k] != key@,
        decreases i,
    {
        i = i - 1;
        if entries[i].0 == *key {
            assert(entry_keys(entries@)[i as int] == key@);
            return Some(i);
        }
    }
    None
}

/// Decides whether two values have the same model: arrays are compared in
/// order, objects member by member whatever the order of their entries.
pub fn values_equal(a: &Value, b: &Value) -> (r: bool)
    ensures
        r == (a@ == b@),
    decreases a,
{
    match (a, b) {
        (Value::Null, Value::Null) => true,
        (Value::Bool(x), Value::Bool(y)) => *x == *y,
        (Value::Str(x), Value::Str(y)) => *x == *y,
        (Value::Number(x), Value::Number(y)) => *x == *y,
        (Value::Arr(x), Value::Arr(y)) => items_equal(x, y),
        (Value::Obj(x), Value::Obj(y)) => entries_equal(x, y),
        _ => false,
    }
}

/// Decides whether two lists of values have the same models, in order.
pub fn items_equal(x: &Vec<Value>, y: &Vec<Value>) -> (r: bool)
    ensures
        r == (items_view(x@) == items_view(y@)),
    decreases x,
{
    if x.len() != y.len() {
        assert(items_view(x@).len() != items_view(y@).len());
        return false;
    }
    let mut i: usize = 0;
    while i < x.len()
        invariant
            i <= x.len(),
            x.len() == y.len(),
            forall|k: int| 0 <= k < i ==> x[k]@ == y[k]@,
        decreases x.len() - i,
    {
        if !values_equal(&x[i], &y[i]) {
            assert(items_view(x@)[i as int] != items_view(y@)[i as int]);
            return false;
        }
        i = i + 1;
    }
    assert(items_view(x@) =~= items_view(y@));
    true
}

/// Decides whether two lists of entries stand for the same map.
pub fn entries_equal(x: &Vec<(String, Value)>, y: &Vec<(String, Value)>) -> (r: bool)
    ensures
        r == (members_view(x@) == members_view(y@)),
    decreases x,
{
    let ghost mx = members_view(x@);
    let ghost my = members_view(y@);
    let mut i: usize = 0;
    while i < x.len()
        invariant
            i <= x.len(),
            mx == members_view(x@),
            my == members_view(y@),
            forall|k: int|
                0 <= k < i ==> my.dom().contains(#[trigger] entry_keys(x@)[k]) && mx[entry_keys(
                    x@,
                )[k]] == my[entry_keys(x@)[k]],
        decreases x.len() - i,
    {
        let ghost key = entry_keys(x@)[i as int];
        proof {
            lemma_last_index_of(entry_keys(x@), key);
            lemma_last_index_of(entry_keys(y@), key);
        }
        let jx = find_key(x, &x[i].0);
        let jy = find_key(y, &x[i].0);
        match (jx, jy) {
            (Some(jx), Some(jy)) => {
                if !values_equal(&x[jx].1, &y[jy].1) {
                    assert(mx[key] != my[key]);
                    return false;
                }
            },
            _ => {
                assert(mx.dom().contains(key));
                assert(!my.dom().contains(key));
                return false;
            },
        }
        i = i + 1;
    }
    let mut j: usize = 0;
    while j < y.len()
        invariant
            j <= y.len(),
            mx == members_view(x@),
            my == members_view(y@),
            forall|k: int| 0 <= k < j ==> mx.dom().contains(#[trigger] entry_keys(y@)[k]),
        decreases y.len() - j,
    {
        let ghost key = entry_keys(y@)[j as int];
        proof {
            lemma_last_index_of(entry_keys(x@), key);
            lemma_last_index_of(entry_keys(y@), key);
        }
        if find_key(x, &y[j].0).is_none() {
            assert(my.dom().contains(key));
            assert(!mx.dom().contains(key));
            return false;
        }
        j = j + 1;
    }
    proof {
        assert forall|k: Seq<char>| mx.dom().contains(k) <==> my.dom().contains(k) by {
            lemma_last_index_of(entry_keys(x@), k);
            lemma_last_index_of(entry_keys(y@), k);
        }
        assert forall|k: Seq<char>| mx.dom().contains(k) implies mx[k] == my[k] by {
            lemma_last_index_of(entry_keys(x@), k);
        }
        assert(mx =~= my);
    }
    true
}

impl PartialEq for Value {
    /// Two values are equal when their models are.
    fn eq(&self, other: &Value) -> (r: bool) {
        values_equal(self, other)
    }
}

impl vstd::std_specs::cmp::PartialEqSpecImpl for Value {
    open spec fn obeys_eq_spec() -> bool {
        true
    }

    open spec fn eq_spec(&self, other: &Value) -> bool {
        self@ == other@
    }
}

} // verus!
