//! A JSON value tree and the walk of a key path through it.
use vstd::prelude::*;
use crate::text::views;

verus! {

/// A parsed JSON value. A number keeps its source text. An object keeps its
/// members in a `Vec`, in order, so that its contents can be stated as a
/// sequence; lookup takes the first member with a key. A parser that keeps one
/// member per key (serde_json's map keeps the last of equal keys) gives an
/// object whose keys are unique, where first and only match are the same.
pub enum JsonValue {
    Null,
    Bool(bool),
    Number(String),
    Str(String),
    Array(Vec<JsonValue>),
    Object(Vec<(String, JsonValue)>),
}

/// The value of the first member of `members` whose key is `key`.
pub open spec fn member(members: Seq<(String, JsonValue)>, key: Seq<char>) -> Option<JsonValue>
    decreases members.len(),
{
    if members.len() == 0 {
        None
    } else if members[0].0@ == key {
        Some(members[0].1)
    } else {
        member(members.drop_first(), key)
    }
}

/// The value reached from `v` by following each of `segments` as an object
/// key; none as soon as a segment is missing or the value there is no object.
pub open spec fn path_value(v: JsonValue, segments: Seq<Seq<char>>) -> Option<JsonValue>
    decreases segments.len(),
{
    if segments.len() == 0 {
        Some(v)
    } else {
        match v {
            JsonValue::Object(members) => match member(members@, segments[0]) {
                Some(child) => path_value(child, segments.drop_first()),
                None => None,
            },
            _ => None,
        }
    }
}

/// Whether a value can be shown: strings and objects can, other values cannot.
pub open spec fn is_displayable(v: JsonValue) -> bool {
    v is Str || v is Object
}

/// What resolving `segments` in `root` yields: the value at the end of the
/// whole path, if that value can be shown.
pub open spec fn resolved(root: JsonValue, segments: Seq<Seq<char>>) -> Option<JsonValue> {
    match path_value(root, segments) {
        Some(v) => if is_displayable(v) {
            Some(v)
        } else {
            None
        },
        None => None,
    }
}

/// A path whose first segment is not a key of the root gives no result.
pub proof fn lemma_missing_first_segment(root: JsonValue, segments: Seq<Seq<char>>)
    requires
        segments.len() > 0,
        !(root matches JsonValue::Object(members) && member(members@, segments[0]) is Some),
    ensures
        resolved(root, segments) is None,
{
}

/// The empty path resolves an object root to the whole object.
pub proof fn lemma_empty_path_object(root: JsonValue)
    requires
        root is Object,
    ensures
        resolved(root, Seq::empty()) == Some(root),
{
}

/// A root that is not an object gives no result, but for the empty path on a
/// string root.
pub proof fn lemma_non_object_root(root: JsonValue, segments: Seq<Seq<char>>)
    requires
        root !is Object,
        !(segments.len() == 0 && root is Str),
    ensures
        resolved(root, segments) is None,
{
}

/// The value of the first member of `members` whose key is `key`.
pub fn find_member<'a>(members: &'a Vec<(String, JsonValue)>, key: &String) -> (r: Option<&'a JsonValue>)
    ensures
        match member(members@, key@) {
            Some(v) => r is Some && *r->0 == v,
            None => r is None,
        },
{
    let mut i: usize = 0;
    assert(members@.subrange(0, members@.len() as int) =~= members@);
    while i < members.len()
        invariant
            0 <= i <= members@.len(),
            member(members@, key@) == member(members@.subrange(i as int, members@.len() as int), key@),
        decreases members@.len() - i,
    {
        assert(members@.subrange(i as int, members@.len() as int).drop_first() =~= members@.subrange(
            i + 1,
            members@.len() as int,
        ));
        if members[i].0 == *key {
            return Some(&members[i].1);
        }
        i = i + 1;
    }
    None
}

/// Follows `segments` from `root`; the value reached is returned only if the
/// whole path was followed and the value is a string or an object.
pub fn resolve_value<'a>(root: &'a JsonValue, segments: &Vec<String>) -> (r: Option<&'a JsonValue>)
    ensures
        match resolved(*root, views(segments@)) {
            Some(v) => r is Some && *r->0 == v,
            None => r is None,
        },
{
    let ghost segs = views(segments@);
    let mut cur: &'a JsonValue = root;
    let mut i: usize = 0;
    assert(segs.subrange(0, segs.len() as int) =~= segs);
    while i < segments.len()
        invariant
            0 <= i <= segments@.len(),
            segs == views(segments@),
            path_value(*root, segs) == path_value(*cur, segs.subrange(i as int, segs.len() as int)),
        decreases segments@.len() - i,
    {
        let ghost rest = segs.subrange(i as int, segs.len() as int);
        assert(rest.drop_first() =~= segs.subrange(i + 1, segs.len() as int));
        match cur {
            JsonValue::Object(members) => match find_member(members, &segments[i]) {
                Some(child) => {
                    cur = child;
                },
                None => {
                    return None;
                },
            },
            _ => {
                return None;
            },
        }
        i = i + 1;
    }
    assert(segs.subrange(i as int, segs.len() as int) =~= Seq::<Seq<char>>::empty());
    match cur {
        JsonValue::Str(_) => Some(cur),
        JsonValue::Object(_) => Some(cur),
        _ => None,
    }
}

} // verus!
