//! JSON documents as the library reads them: the values an API answer holds,
//! with member lookup.
use vstd::prelude::*;
use crate::text::text_eq;

verus! {

/// A JSON value; an object keeps its members in order, a number its text.
pub enum JsonValue {
    Null,
    Bool(bool),
    Number(String),
    Str(String),
    Array(Vec<JsonValue>),
    Object(Vec<(String, JsonValue)>),
}

/// The position of the first member named `key`.
pub open spec fn member_index(es: Seq<(String, JsonValue)>, key: Seq<char>) -> Option<int>
    decreases es.len(),
{
    if es.len() == 0 {
        None
    } else {
        match member_index(es.drop_last(), key) {
            Some(i) => Some(i),
            None => if es.last().0@ == key { Some(es.len() - 1) } else { None },
        }
    }
}

/// The member named `key` of an object.
pub open spec fn json_get(v: JsonValue, key: Seq<char>) -> Option<JsonValue> {
    match v {
        JsonValue::Object(es) => match member_index(es@, key) {
            Some(i) => Some(es@[i].1),
            None => None,
        },
        _ => None,
    }
}

/// A member of a value that may be absent.
pub open spec fn at(v: Option<JsonValue>, key: Seq<char>) -> Option<JsonValue> {
    match v {
        Some(x) => json_get(x, key),
        None => None,
    }
}

/// The text of a string value.
pub open spec fn as_text(v: Option<JsonValue>) -> Option<Seq<char>> {
    match v {
        Some(JsonValue::Str(s)) => Some(s@),
        _ => None,
    }
}

proof fn lemma_member_index(es: Seq<(String, JsonValue)>, key: Seq<char>, k: int)
    requires
        0 <= k <= es.len(),
        forall|j: int| 0 <= j < k ==> #[trigger] es[j].0@ != key,
        k < es.len() ==> es[k].0@ == key,
    ensures
        member_index(es, key) == if k < es.len() { Some(k) } else { None::<int> },
    decreases es.len(),
{
    if es.len() > 0 {
        let p = es.drop_last();
        if k < es.len() - 1 {
            assert forall|j: int| 0 <= j < k implies #[trigger] p[j].0@ != key by {
                assert(p[j] == es[j]);
            }
            assert(p[k] == es[k]);
            lemma_member_index(p, key, k);
        } else {
            assert forall|j: int| 0 <= j < p.len() implies #[trigger] p[j].0@ != key by {
                assert(p[j] == es[j]);
            }
            lemma_member_index(p, key, p.len() as int);
        }
    }
}

/// The member named `key` of an object.
pub fn get<'a>(v: &'a JsonValue, key: &str) -> (r: Option<&'a JsonValue>)
    ensures
        match json_get(*v, key@) {
            Some(x) => r matches Some(y) && *y == x,
            None => r is None,
        },
{
    match v {
        JsonValue::Object(es) => {
            let mut i: usize = 0;
            while i < es.len()
                invariant
                    i <= es.len(),
                    *v == JsonValue::Object(*es),
                    forall|j: int| 0 <= j < i ==> #[trigger] es@[j].0@ != key@,
                decreases es.len() - i,
            {
                if text_eq(&es[i].0, key) {
                    proof { lemma_member_index(es@, key@, i as int); }
                    return Some(&es[i].1);
                }
                i = i + 1;
            }
            proof { lemma_member_index(es@, key@, es.len() as int); }
            None
        },
        _ => None,
    }
}

/// A member of a value that may be absent.
pub fn get_in<'a>(v: Option<&'a JsonValue>, key: &str) -> (r: Option<&'a JsonValue>)
    ensures
        match at(match v {
            Some(x) => Some(*x),
            None => None,
        }, key@) {
            Some(x) => r matches Some(y) && *y == x,
            None => r is None,
        },
{
    match v {
        Some(x) => get(x, key),
        None => None,
    }
}

/// The text of a string value.
pub fn text_of(v: Option<&JsonValue>) -> (r: Option<String>)
    ensures
        crate::api::opt_text(r) == as_text(match v {
            Some(x) => Some(*x),
            None => None,
        }),
{
    match v {
        Some(JsonValue::Str(s)) => Some(s.clone()),
        _ => None,
    }
}

/// A JSON value as mathematics sees it.
pub enum JsonNode {
    Null,
    Bool(bool),
    Number(Seq<char>),
    Str(Seq<char>),
    Array(Seq<JsonNode>),
    Object(Seq<(Seq<char>, JsonNode)>),
}

pub open spec fn json_node(v: JsonValue) -> JsonNode
    decreases v,
{
    match v {
        JsonValue::Null => JsonNode::Null,
        JsonValue::Bool(b) => JsonNode::Bool(b),
        JsonValue::Number(t) => JsonNode::Number(t@),
        JsonValue::Str(t) => JsonNode::Str(t@),
        JsonValue::Array(vs) => JsonNode::Array(json_nodes(vs@)),
        JsonValue::Object(es) => JsonNode::Object(json_members(es@)),
    }
}

pub open spec fn json_nodes(vs: Seq<JsonValue>) -> Seq<JsonNode>
    decreases vs,
{
    if vs.len() == 0 {
        Seq::empty()
    } else {
        seq![json_node(vs[0])] + json_nodes(vs.drop_first())
    }
}

pub open spec fn json_members(es: Seq<(String, JsonValue)>) -> Seq<(Seq<char>, JsonNode)>
    decreases es,
{
    if es.len() == 0 {
        Seq::empty()
    } else {
        seq![(es[0].0@, json_node(es[0].1))] + json_members(es.drop_first())
    }
}

proof fn lemma_json_nodes(vs: Seq<JsonValue>)
    ensures
        json_nodes(vs).len() == vs.len(),
        forall|i: int| 0 <= i < vs.len() ==> #[trigger] json_nodes(vs)[i] == json_node(vs[i]),
    decreases vs.len(),
{
    if vs.len() > 0 {
        lemma_json_nodes(vs.drop_first());
        assert forall|i: int| 0 <= i < vs.len() implies #[trigger] json_nodes(vs)[i] == json_node(vs[i]) by {
            if i > 0 {
                assert(vs[i] == vs.drop_first()[i - 1]);
            }
        }
    }
}

proof fn lemma_json_members(es: Seq<(String, JsonValue)>)
    ensures
        json_members(es).len() == es.len(),
        forall|i: int| 0 <= i < es.len() ==> #[trigger] json_members(es)[i] == (es[i].0@, json_node(es[i].1)),
    decreases es.len(),
{
    if es.len() > 0 {
        lemma_json_members(es.drop_first());
        assert forall|i: int| 0 <= i < es.len() implies #[trigger] json_members(es)[i] == (es[i].0@, json_node(es[i].1)) by {
            if i > 0 {
                assert(es[i] == es.drop_first()[i - 1]);
            }
        }
    }
}

/// A copy of a value.
pub fn copy_json(v: &JsonValue) -> (r: JsonValue)
    ensures
        json_node(r) == json_node(*v),
    decreases v,
{
    match v {
        JsonValue::Null => JsonValue::Null,
        JsonValue::Bool(b) => JsonValue::Bool(*b),
        JsonValue::Number(t) => JsonValue::Number(t.clone()),
        JsonValue::Str(t) => JsonValue::Str(t.clone()),
        JsonValue::Array(vs) => {
            let mut out: Vec<JsonValue> = Vec::new();
            let mut i: usize = 0;
            while i < vs.len()
                invariant
                    i <= vs.len(),
                    *v == JsonValue::Array(*vs),
                    out.len() == i,
                    forall|j: int| 0 <= j < i ==> #[trigger] json_node(out@[j]) == json_node(vs@[j]),
                decreases vs.len() - i,
            {
                proof {
                    assert(decreases_to!(*v => (*v)->Array_0));
                    assert(decreases_to!(*vs => vs[i as int]));
                }
                let c = copy_json(&vs[i]);
                out.push(c);
                i = i + 1;
            }
            let r = JsonValue::Array(out);
            proof {
                lemma_json_nodes(out@);
                lemma_json_nodes(vs@);
                assert(json_nodes(out@) =~= json_nodes(vs@));
            }
            r
        },
        JsonValue::Object(es) => {
            let mut out: Vec<(String, JsonValue)> = Vec::new();
            let mut i: usize = 0;
            while i < es.len()
                invariant
                    i <= es.len(),
                    *v == JsonValue::Object(*es),
                    out.len() == i,
                    forall|j: int| 0 <= j < i ==> #[trigger] out@[j].0@ == es@[j].0@ && json_node(out@[j].1) == json_node(es@[j].1),
                decreases es.len() - i,
            {
                proof {
                    assert(decreases_to!(*v => (*v)->Object_0));
                    assert(decreases_to!(*es => es[i as int]));
                    assert(decreases_to!(es[i as int] => es[i as int].1));
                }
                let c = copy_json(&es[i].1);
                out.push((es[i].0.clone(), c));
                i = i + 1;
            }
            let r = JsonValue::Object(out);
            proof {
                lemma_json_members(out@);
                lemma_json_members(es@);
                assert(json_members(out@) =~= json_members(es@));
            }
            r
        },
    }
}

} // verus!
