//! A plain model of JSON values, and the field reads the diagnostics logic
//! makes on them.

use vstd::prelude::*;
use crate::framing::{decimal_value, is_digit};

verus! {

/// A JSON value. A number keeps its decimal text as written.
#[derive(Debug, PartialEq)]
pub enum JsonValue {
    Null,
    Bool(bool),
    Number(String),
    Str(String),
    Array(Vec<JsonValue>),
    Object(Vec<(String, JsonValue)>),
}

/// The value of the first field named `k`.
pub open spec fn lookup(s: Seq<(String, JsonValue)>, k: Seq<char>) -> Option<JsonValue>
    decreases s.len(),
{
    if s.len() == 0 {
        None
    } else if s[0].0@ == k {
        Some(s[0].1)
    } else {
        lookup(s.drop_first(), k)
    }
}

/// `value.get(k)`: a field of an object; nothing for any other value.
pub open spec fn field(v: JsonValue, k: Seq<char>) -> Option<JsonValue> {
    match v {
        JsonValue::Object(fields) => lookup(fields@, k),
        _ => None,
    }
}

/// `u64`'s `FromStr`: an optional `+` and decimal digits whose value fits.
pub open spec fn parse_u64_spec(s: Seq<char>) -> Option<u64> {
    let d = if s.len() > 0 && s[0] == '+' {
        s.drop_first()
    } else {
        s
    };
    if d.len() > 0 && (forall|i: int| 0 <= i < d.len() ==> is_digit(#[trigger] d[i]))
        && decimal_value(d) <= u64::MAX {
        Some(decimal_value(d) as u64)
    } else {
        None
    }
}

/// `value.as_u64()`: a number that is a non-negative integer in range.
pub open spec fn as_u64_spec(v: JsonValue) -> Option<u64> {
    match v {
        JsonValue::Number(text) => parse_u64_spec(text@),
        _ => None,
    }
}

/// Relies on `u64`'s `FromStr`: an optional `+` and decimal digits whose
/// value fits, and nothing else.
#[verifier::external_body]
fn parse_u64(s: &str) -> (r: Option<u64>)
    ensures
        r == parse_u64_spec(s@),
{
    s.parse::<u64>().ok()
}

proof fn lemma_lookup_skip(s: Seq<(String, JsonValue)>, k: Seq<char>, i: int)
    requires
        0 <= i < s.len(),
        s[i].0@ != k,
    ensures
        lookup(s.skip(i), k) == lookup(s.skip(i + 1), k),
{
    assert(s.skip(i).drop_first() =~= s.skip(i + 1));
}

/// Index of the first field named `k`.
pub fn find_field(fields: &Vec<(String, JsonValue)>, k: &str) -> (r: Option<usize>)
    ensures
        r is None ==> lookup(fields@, k@) is None,
        r matches Some(i) ==> i < fields@.len() && fields@[i as int].0@ == k@ && lookup(fields@, k@)
            == Some(fields@[i as int].1),
{
    let key: String = k.to_owned();
    let mut i: usize = 0;
    assert(fields@.skip(0) =~= fields@);
    while i < fields.len()
        invariant
            key@ == k@,
            i <= fields@.len(),
            lookup(fields@, k@) == lookup(fields@.skip(i as int), k@),
        decreases fields@.len() - i,
    {
        if fields[i].0 == key {
            return Some(i);
        }
        proof {
            lemma_lookup_skip(fields@, k@, i as int);
        }
        i += 1;
    }
    None
}

/// `value.get(k)`.
pub fn get_field<'a>(v: &'a JsonValue, k: &str) -> (r: Option<&'a JsonValue>)
    ensures
        match r {
            Some(x) => field(*v, k@) == Some(*x),
            None => field(*v, k@) is None,
        },
{
    match v {
        JsonValue::Object(fields) => match find_field(fields, k) {
            Some(i) => Some(&fields[i].1),
            None => None,
        },
        _ => None,
    }
}

/// `value.as_u64()`.
pub fn as_u64(v: &JsonValue) -> (r: Option<u64>)
    ensures
        r == as_u64_spec(*v),
{
    match v {
        JsonValue::Number(text) => parse_u64(text.as_str()),
        _ => None,
    }
}

proof fn lemma_lookup_remove_first(s: Seq<(String, JsonValue)>, k: Seq<char>, i: int, other: Seq<char>)
    requires
        0 <= i < s.len(),
        s[i].0@ == k,
        forall|j: int| 0 <= j < i ==> (#[trigger] s[j]).0@ != k,
        other != k,
    ensures
        lookup(s.remove(i), other) == lookup(s, other),
    decreases i,
{
    if i == 0 {
        assert(s.remove(0) =~= s.drop_first());
    } else {
        assert(s.remove(i)[0] == s[0]);
        if s[0].0@ != other {
            assert(s.remove(i).drop_first() =~= s.drop_first().remove(i - 1));
            lemma_lookup_remove_first(s.drop_first(), k, i - 1, other);
        }
    }
}

/// Moves the first field named `k` out of an object's fields.
pub fn take_field(fields: &mut Vec<(String, JsonValue)>, k: &str) -> (r: Option<JsonValue>)
    ensures
        r == lookup(old(fields)@, k@),
        forall|other: Seq<char>| other != k@ ==> lookup(final(fields)@, other) == lookup(old(fields)@, other),
{
    let key: String = k.to_owned();
    let mut i: usize = 0;
    assert(fields@.skip(0) =~= fields@);
    while i < fields.len()
        invariant
            key@ == k@,
            i <= fields@.len(),
            fields@ == old(fields)@,
            lookup(fields@, k@) == lookup(fields@.skip(i as int), k@),
            forall|j: int| 0 <= j < i ==> (#[trigger] fields@[j]).0@ != k@,
        decreases fields@.len() - i,
    {
        if fields[i].0 == key {
            assert(fields@.skip(i as int)[0] == fields@[i as int]);
            let ghost o = fields@;
            let (_, value) = fields.remove(i);
            proof {
                assert forall|other: Seq<char>| other != k@ implies lookup(fields@, other) == lookup(o, other) by {
                    lemma_lookup_remove_first(o, k@, i as int, other);
                }
            }
            return Some(value);
        }
        proof {
            lemma_lookup_skip(fields@, k@, i as int);
        }
        i += 1;
    }
    None
}

} // verus!
