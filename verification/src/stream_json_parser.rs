//! What changed between two snapshots of a JSON value read while it streams
//! in: the root-level fragment that is new or has grown.
use crate::json_types::{
    clone_value, find_key, key_pos, lemma_key_pos, lemma_view_entries_len, lemma_view_values_len, view_entries,
    JVal, JsonValue,
};
use vstd::prelude::*;

verus! {

/// Where a fragment sits under the root value.
#[derive(Debug, Clone, PartialEq)]
pub enum Path {
    RootField(String),
    ArrayElem(usize),
}

/// What a snapshot tells the reader.
#[derive(Debug)]
pub enum StreamEvent {
    Partial(Path, JsonValue),
    Complete(JsonValue),
    NeedMore,
}

/// Mathematical value of a [`Path`].
pub enum PathS {
    RootField(Seq<char>),
    ArrayElem(int),
}

pub open spec fn path_view(p: Path) -> PathS {
    match p {
        Path::RootField(k) => PathS::RootField(k@),
        Path::ArrayElem(i) => PathS::ArrayElem(i as int),
    }
}

/// The fragment a partial event reports, if it is one.
pub open spec fn partial_view(e: Option<StreamEvent>) -> Option<(PathS, JVal)> {
    match e {
        Some(StreamEvent::Partial(p, v)) => Some((path_view(p), v@)),
        _ => None,
    }
}

/// The length `str::len` gives a string: its size in UTF-8.
pub open spec fn byte_len(s: Seq<char>) -> usize {
    vstd::utf8::encode_utf8(s).len() as usize
}

/// The first fragment of a first snapshot: the only field of a one-field
/// object, or the first element of a non-empty array.
pub open spec fn first_fragment(t: JVal) -> Option<(PathS, JVal)> {
    match t {
        JVal::Object(es) => if es.len() == 1 {
            Some((PathS::RootField(es[0].0), es[0].1))
        } else {
            None
        },
        JVal::Array(a) => if a.len() > 0 {
            Some((PathS::ArrayElem(0), a[0]))
        } else {
            None
        },
        _ => None,
    }
}

/// A value that has grown: a longer string (in bytes), or an array or object
/// with more members.
pub open spec fn grew(a: JVal, b: JVal) -> bool {
    match (a, b) {
        (JVal::Str(s0), JVal::Str(s1)) => byte_len(s1) > byte_len(s0),
        (JVal::Array(x), JVal::Array(y)) => y.len() > x.len(),
        (JVal::Object(x), JVal::Object(y)) => y.len() > x.len(),
        _ => false,
    }
}

/// The first entry of `c[i..]` whose key `p` lacks.
pub open spec fn first_new(p: Seq<(Seq<char>, JVal)>, c: Seq<(Seq<char>, JVal)>, i: int) -> Option<(Seq<char>, JVal)>
    decreases c.len() - i,
{
    if i < 0 || i >= c.len() {
        None
    } else if key_pos(p, c[i].0) < 0 {
        Some(c[i])
    } else {
        first_new(p, c, i + 1)
    }
}

/// The first entry of `c[i..]` whose value has grown since `p`.
pub open spec fn first_grown(p: Seq<(Seq<char>, JVal)>, c: Seq<(Seq<char>, JVal)>, i: int) -> Option<(Seq<char>, JVal)>
    decreases c.len() - i,
{
    if i < 0 || i >= c.len() {
        None
    } else if key_pos(p, c[i].0) >= 0 && grew(p[key_pos(p, c[i].0)].1, c[i].1) {
        Some(c[i])
    } else {
        first_grown(p, c, i + 1)
    }
}

pub open spec fn as_field(e: Option<(Seq<char>, JVal)>) -> Option<(PathS, JVal)> {
    match e {
        Some((k, v)) => Some((PathS::RootField(k), v)),
        None => None,
    }
}

/// What is new in `curr` since `prev`: a new root field (when the object has
/// more fields), else the first root field that grew; the next element of a
/// longer array; nothing otherwise.
pub open spec fn diff_spec(prev: JVal, curr: JVal) -> Option<(PathS, JVal)> {
    match (prev, curr) {
        (JVal::Object(p), JVal::Object(c)) => if c.len() > p.len() {
            as_field(first_new(p, c, 0))
        } else {
            as_field(first_grown(p, c, 0))
        },
        (JVal::Array(p), JVal::Array(c)) => if c.len() > p.len() {
            Some((PathS::ArrayElem(p.len() as int), c[p.len() as int]))
        } else {
            None
        },
        _ => None,
    }
}

/// The event for a first snapshot (see [`first_fragment`]).
pub fn first_fragment_event(tree: &JsonValue) -> (r: Option<StreamEvent>)
    ensures
        partial_view(r) == first_fragment(tree@),
        r is None || r matches Some(StreamEvent::Partial(_, _)),
{
    match tree {
        JsonValue::Object(es) => {
            proof {
                lemma_view_entries_len(es@);
            }
            if es.len() == 1 {
                Some(StreamEvent::Partial(Path::RootField(es[0].0.clone()), clone_value(&es[0].1)))
            } else {
                None
            }
        },
        JsonValue::Array(a) => {
            proof {
                lemma_view_values_len(a@);
            }
            if a.len() > 0 {
                Some(StreamEvent::Partial(Path::ArrayElem(0), clone_value(&a[0])))
            } else {
                None
            }
        },
        _ => None,
    }
}

fn grew_exec(a: &JsonValue, b: &JsonValue) -> (r: bool)
    ensures
        r == grew(a@, b@),
{
    match (a, b) {
        (JsonValue::String(s0), JsonValue::String(s1)) => s1.as_str().len() > s0.as_str().len(),
        (JsonValue::Array(x), JsonValue::Array(y)) => {
            proof {
                lemma_view_values_len(x@);
                lemma_view_values_len(y@);
            }
            y.len() > x.len()
        },
        (JsonValue::Object(x), JsonValue::Object(y)) => {
            proof {
                lemma_view_entries_len(x@);
                lemma_view_entries_len(y@);
            }
            y.len() > x.len()
        },
        _ => false,
    }
}

/// The root-level fragment that is new in `curr` since `prev` (see [`diff_spec`]).
pub fn diff_root(prev: &JsonValue, curr: &JsonValue) -> (r: Option<(Path, JsonValue)>)
    ensures
        match r {
            Some((p, v)) => diff_spec(prev@, curr@) == Some((path_view(p), v@)),
            None => diff_spec(prev@, curr@) is None,
        },
{
    match (prev, curr) {
        (JsonValue::Object(p), JsonValue::Object(c)) => {
            let ghost pv = view_entries(p@);
            let ghost cv = view_entries(c@);
            assert(prev@ == JVal::Object(pv));
            assert(curr@ == JVal::Object(cv));
            proof {
                lemma_view_entries_len(p@);
                lemma_view_entries_len(c@);
            }
            let more = c.len() > p.len();
            let mut i: usize = 0;
            while i < c.len()
                invariant
                    i <= c@.len(),
                    pv == view_entries(p@),
                    cv == view_entries(c@),
                    cv.len() == c@.len(),
                    pv.len() == p@.len(),
                    forall|j: int| 0 <= j < c@.len() ==> #[trigger] cv[j] == (c@[j].0@, c@[j].1@),
                    forall|j: int| 0 <= j < p@.len() ==> #[trigger] pv[j] == (p@[j].0@, p@[j].1@),
                    more == (cv.len() > pv.len()),
                    prev@ == JVal::Object(pv),
                    curr@ == JVal::Object(cv),
                    more ==> first_new(pv, cv, i as int) == first_new(pv, cv, 0),
                    !more ==> first_grown(pv, cv, i as int) == first_grown(pv, cv, 0),
                decreases c@.len() - i,
            {
                let found = find_key(p, c[i].0.as_str());
                proof {
                    lemma_key_pos(pv, cv[i as int].0);
                }
                if more {
                    if found.is_none() {
                        assert(first_new(pv, cv, i as int) == Some(cv[i as int]));
                        let out = (Path::RootField(c[i].0.clone()), clone_value(&c[i].1));
                        assert(path_view(out.0) == PathS::RootField(cv[i as int].0));
                        return Some(out);
                    }
                } else {
                    match found {
                        Some(k) => {
                            if grew_exec(&p[k].1, &c[i].1) {
                                assert(first_grown(pv, cv, i as int) == Some(cv[i as int]));
                                let out = (Path::RootField(c[i].0.clone()), clone_value(&c[i].1));
                                assert(path_view(out.0) == PathS::RootField(cv[i as int].0));
                                return Some(out);
                            }
                        },
                        None => {},
                    }
                }
                i += 1;
            }
            None
        },
        (JsonValue::Array(p), JsonValue::Array(c)) => {
            proof {
                lemma_view_values_len(p@);
                lemma_view_values_len(c@);
            }
            if c.len() > p.len() {
                Some((Path::ArrayElem(p.len()), clone_value(&c[p.len()])))
            } else {
                None
            }
        },
        _ => None,
    }
}

} // verus!
