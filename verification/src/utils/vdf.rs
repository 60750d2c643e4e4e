//! VDF documents held as trees of owned strings, with a reader and a writer.
use vstd::prelude::*;
use crate::text::{ascii_lower, chars_of, string_of};
use crate::vdf_text::{token_views, tokenize_chars, is_single, push_quoted};
use crate::vdf_model::{VdfNode, is_delim, read_quoted, bare_run, tokenize, lemma_read_quoted_shorter,
    lemma_bare_run_bound, parse_entries, lemma_parse_entries_rest, parse_document, write_entry, write_entries, write_document, tabs, quote,
    lemma_write_entries_append, lemma_write_entries_single, key_eq, key_index, lemma_key_index, lemma_key_index_push, node_get, node_has_key,
    node_insert, path_ok, path_target, path_replace};

verus! {

/// A VDF value: a string, or an ordered list of keyed children.
pub enum VdfValue {
    Str(String),
    Obj(Vec<(String, VdfValue)>),
}

pub open spec fn node_of(v: &VdfValue) -> VdfNode
    decreases v,
{
    match v {
        VdfValue::Str(s) => VdfNode::Str(s@),
        VdfValue::Obj(es) => VdfNode::Obj(entries_of(es@)),
    }
}

pub open spec fn entries_of(es: Seq<(String, VdfValue)>) -> Seq<(Seq<char>, VdfNode)>
    decreases es,
{
    if es.len() == 0 {
        Seq::empty()
    } else {
        seq![(es[0].0@, node_of(&es[0].1))] + entries_of(es.drop_first())
    }
}

pub proof fn lemma_entries_of(es: Seq<(String, VdfValue)>)
    ensures
        entries_of(es).len() == es.len(),
        forall|i: int| 0 <= i < es.len() ==> #[trigger] entries_of(es)[i] == (es[i].0@, node_of(&es[i].1)),
    decreases es.len(),
{
    if es.len() > 0 {
        lemma_entries_of(es.drop_first());
        assert forall|i: int| 0 <= i < es.len() implies #[trigger] entries_of(es)[i] == (es[i].0@, node_of(&es[i].1)) by {
            if i > 0 {
                assert(es[i] == es.drop_first()[i - 1]);
            }
        }
    }
}

pub proof fn lemma_entries_of_update(es: Seq<(String, VdfValue)>, i: int)
    requires
        0 <= i < es.len(),
    ensures
        forall|e: (String, VdfValue)| e.0 == es[i].0 ==> entries_of(#[trigger] es.update(i, e))
            == entries_of(es).update(i, (entries_of(es)[i].0, node_of(&e.1))),
{
    assert forall|e: (String, VdfValue)| e.0 == es[i].0 implies #[trigger] entries_of(es.update(i, e))
        == entries_of(es).update(i, (entries_of(es)[i].0, node_of(&e.1))) by {
        lemma_entries_of(es);
        lemma_entries_of(es.update(i, e));
        assert(entries_of(es.update(i, e)) =~= entries_of(es).update(i, (entries_of(es)[i].0, node_of(&e.1))));
    }
}

/// The texts of a list of string slices.
pub open spec fn str_seqs(path: Seq<&str>) -> Seq<Seq<char>> {
    path.map_values(|s: &str| s@)
}

impl View for VdfValue {
    type V = VdfNode;

    open spec fn view(&self) -> VdfNode {
        node_of(self)
    }
}

impl VdfValue {
    /// The text of a string value.
    pub fn get_str(&self) -> (r: Option<&str>)
        ensures
            match self {
                VdfValue::Str(s) => r is Some && r->0@ == s@,
                VdfValue::Obj(_) => r is None,
            },
    {
        match self {
            VdfValue::Str(s) => Some(s.as_str()),
            VdfValue::Obj(_) => None,
        }
    }

    /// The entries of an object value.
    pub fn get_obj(&self) -> (r: Option<&Vec<(String, VdfValue)>>)
        ensures
            match self {
                VdfValue::Str(_) => r is None,
                VdfValue::Obj(es) => r == Some(es),
            },
    {
        match self {
            VdfValue::Str(_) => None,
            VdfValue::Obj(es) => Some(es),
        }
    }

    /// Position of the first entry whose key matches `key` (ASCII case ignored).
    fn index_of_key(es: &Vec<(String, VdfValue)>, key: &str) -> (r: Option<usize>)
        ensures
            match r {
                Some(i) => i < es@.len() && i as int == key_index(entries_of(es@), key@),
                None => key_index(entries_of(es@), key@) == -1,
            },
    {
        proof {
            lemma_entries_of(es@);
            lemma_key_index(entries_of(es@), key@);
        }
        let mut i: usize = 0;
        while i < es.len()
            invariant
                i <= es.len(),
                entries_of(es@).len() == es@.len(),
                forall|j: int| 0 <= j < es@.len() ==> #[trigger] entries_of(es@)[j] == (es@[j].0@, node_of(&es@[j].1)),
                forall|j: int| 0 <= j < i ==> !key_eq(#[trigger] entries_of(es@)[j].0, key@),
                -1 <= key_index(entries_of(es@), key@) < es@.len(),
                key_index(entries_of(es@), key@) >= 0 ==> key_eq(entries_of(es@)[key_index(entries_of(es@), key@)].0, key@),
                forall|j: int| 0 <= j < es@.len() && (key_index(entries_of(es@), key@) < 0 || j < key_index(entries_of(es@), key@))
                    ==> !key_eq(#[trigger] entries_of(es@)[j].0, key@),
            decreases es.len() - i,
        {
            assert(entries_of(es@)[i as int] == (es@[i as int].0@, node_of(&es@[i as int].1)));
            if es[i].0.as_str().eq_ignore_ascii_case(key) {
                proof {
                    let k = key_index(entries_of(es@), key@);
                    assert(key_eq(entries_of(es@)[i as int].0, key@));
                    if k >= 0 && k < i {
                        assert(!key_eq(entries_of(es@)[k].0, key@));
                    }
                }
                return Some(i);
            }
            i = i + 1;
        }
        None
    }

    /// Whether this is an object with an entry under `key` (ASCII case ignored).
    pub fn has_key(&self, key: &str) -> (r: bool)
        ensures
            r == node_has_key(self@, key@),
    {
        match self {
            VdfValue::Obj(es) => Self::index_of_key(es, key).is_some(),
            VdfValue::Str(_) => false,
        }
    }

    /// The value of the first entry under `key` (ASCII case ignored).
    pub fn find_key(&self, key: &str) -> (r: Option<&VdfValue>)
        ensures
            match node_get(self@, key@) {
                None => r is None,
                Some(n) => r is Some && r->0@ == n,
            },
    {
        match self {
            VdfValue::Obj(es) => {
                proof { lemma_entries_of(es@); }
                match Self::index_of_key(es, key) {
                    Some(i) => Some(&es[i].1),
                    None => None,
                }
            },
            VdfValue::Str(_) => None,
        }
    }

    /// A mutable handle on the value of the first entry under `key` (ASCII case
    /// ignored); what is written through it lands in that entry.
    pub fn get_mut(&mut self, key: &str) -> (r: Option<&mut VdfValue>)
        ensures
            node_get(old(self)@, key@) is None ==> r is None && *final(self) == *old(self),
            node_get(old(self)@, key@) is Some ==> {
                let es0 = old(self)->Obj_0@;
                let i = key_index(entries_of(es0), key@);
                &&& r is Some
                &&& 0 <= i < es0.len()
                &&& *r->0 == es0[i].1
                &&& *final(self) is Obj
                &&& final(self)->Obj_0@ == es0.update(i, (es0[i].0, *final(r->0)))
                &&& final(self)@ == VdfNode::Obj(entries_of(es0).update(i, (entries_of(es0)[i].0, (*final(r->0))@)))
                &&& final(self)@ == node_insert(old(self)@, key@, (*final(r->0))@)
                &&& (*r->0)@ == node_get(old(self)@, key@)->0
            },
    {
        match self {
            VdfValue::Obj(es) => {
                proof { lemma_entries_of(es@); }
                match Self::index_of_key(es, key) {
                    Some(i) => {
                        proof { lemma_entries_of_update(es@, i as int); }
                        Some(&mut es[i].1)
                    },
                    None => None,
                }
            },
            VdfValue::Str(_) => None,
        }
    }

    /// Walks `path[k..]` from this value, creating empty objects for missing keys,
    /// and hands out the value at its end.
    fn ensure_path_from(&mut self, path: &[&str], k: usize) -> (r: Option<&mut VdfValue>)
        requires
            k <= path@.len(),
        ensures
            !path_ok(old(self)@, str_seqs(path@).skip(k as int)) ==> r is None,
            !path_ok(old(self)@, str_seqs(path@).skip(k as int)) ==> final(self)@ == old(self)@,
            path_ok(old(self)@, str_seqs(path@).skip(k as int)) ==> r is Some,
            path_ok(old(self)@, str_seqs(path@).skip(k as int)) ==> (*r->0)@ == path_target(old(self)@, str_seqs(path@).skip(k as int)),
            path_ok(old(self)@, str_seqs(path@).skip(k as int)) ==> final(self)@ == path_replace(old(self)@, str_seqs(path@).skip(k as int), (*final(r->0))@),
        decreases path@.len() - k,
    {
        let ghost p = str_seqs(path@).skip(k as int);
        if k == path.len() {
            return Some(self);
        }
        let seg: &str = path[k];
        assert(p[0] == seg@);
        assert(p.drop_first() =~= str_seqs(path@).skip(k as int + 1));
        let ghost v0 = self@;
        if !self.has_key(seg) {
            self.insert_or_update(seg.to_string(), VdfValue::Obj(Vec::new()));
            proof {
                if let VdfNode::Obj(es) = v0 {
                    lemma_key_index_push(es, (seg@, VdfNode::Obj(Seq::empty())), seg@);
                }
            }
        }
        let ghost v1 = self@;
        proof {
            // Walking from the value after the insertion is walking from the original one.
            if let VdfNode::Obj(es) = v0 {
                let i = key_index(es, seg@);
                if i < 0 {
                    let es1 = es.push((seg@, VdfNode::Obj(Seq::empty())));
                    assert(v1 == VdfNode::Obj(es1));
                    assert forall|x: VdfNode| path_replace(v1, p, x) == #[trigger] path_replace(v0, p, x) by {
                        assert(es1.update(es.len() as int, (es1[es.len() as int].0,
                            path_replace(es1[es.len() as int].1, p.drop_first(), x)))
                            =~= es.push((p[0], path_replace(VdfNode::Obj(Seq::empty()), p.drop_first(), x))));
                    }
                }
            }
        }
        proof {
            if let VdfValue::Obj(es) = self {
                lemma_entries_of(es@);
                lemma_key_index(entries_of(es@), seg@);
                let i = key_index(entries_of(es@), seg@);
                assert(i >= 0);
                if i >= 0 {
                    lemma_entries_of_update(es@, i);
                    let e1 = entries_of(es@);
                    assert(e1.update(i, (e1[i].0, e1[i].1)) =~= e1);
                    assert(v1 == VdfNode::Obj(e1));
                    assert forall|x: VdfNode| #[trigger] path_replace(v1, p, x)
                        == VdfNode::Obj(e1.update(i, (e1[i].0, path_replace(node_of(&es@[i].1), p.drop_first(), x)))) by {
                    }
                    assert(path_ok(v1, p) == path_ok(node_of(&es@[i].1), p.drop_first()));
                    assert(path_target(v1, p) == path_target(node_of(&es@[i].1), p.drop_first()));
                }
            }
        }
        match self.get_mut(seg) {
            Some(next) => {
                next.ensure_path_from(path, k + 1)
            },
            None => None,
        }
    }

    /// Walks `path` from this value, creating an empty object for each missing key,
    /// and hands out the value at its end; `None` (and no change) if the walk meets
    /// a string value.
    pub fn ensure_path(&mut self, path: &[&str]) -> (r: Option<&mut VdfValue>)
        ensures
            !path_ok(old(self)@, str_seqs(path@)) ==> r is None,
            !path_ok(old(self)@, str_seqs(path@)) ==> final(self)@ == old(self)@,
            path_ok(old(self)@, str_seqs(path@)) ==> r is Some,
            path_ok(old(self)@, str_seqs(path@)) ==> (*r->0)@ == path_target(old(self)@, str_seqs(path@)),
            path_ok(old(self)@, str_seqs(path@)) ==> final(self)@ == path_replace(old(self)@, str_seqs(path@), (*final(r->0))@),
    {
        assert(str_seqs(path@).skip(0) =~= str_seqs(path@));
        self.ensure_path_from(path, 0)
    }

    /// Stores `value` under `key`: the first matching entry takes the new value,
    /// or a new entry is appended. A string value is left unchanged.
    pub fn insert_or_update(&mut self, key: String, value: VdfValue)
        ensures
            final(self)@ == node_insert(old(self)@, key@, value@),
    {
        match self {
            VdfValue::Obj(es) => {
                proof { lemma_entries_of(es@); }
                match Self::index_of_key(es, key.as_str()) {
                    Some(i) => {
                        let k = es[i].0.clone();
                        es.set(i, (k, value));
                        proof {
                            lemma_entries_of(es@);
                            assert(entries_of(es@) =~= entries_of(old(self)->Obj_0@).update(i as int, (entries_of(old(self)->Obj_0@)[i as int].0, value@)));
                        }
                    },
                    None => {
                        es.push((key, value));
                        proof {
                            lemma_entries_of(es@);
                            assert(entries_of(es@) =~= entries_of(old(self)->Obj_0@).push((key@, value@)));
                        }
                    },
                }
            },
            VdfValue::Str(_) => {},
        }
    }
}


/// Reads entries from `toks[pos..]` up to the matching closing brace or the end;
/// returns them and the position after what was consumed.
fn parse_entries_from(toks: &Vec<Vec<char>>, pos: usize) -> (res: (Vec<(String, VdfValue)>, usize))
    requires
        pos <= toks.len(),
    ensures
        pos <= res.1 <= toks.len(),
        entries_of(res.0@) == parse_entries(token_views(toks@).skip(pos as int)).0,
        token_views(toks@).skip(res.1 as int) == parse_entries(token_views(toks@).skip(pos as int)).1,
    decreases toks.len() - pos,
{
    let ghost tv = token_views(toks@);
    let ghost goal = parse_entries(tv.skip(pos as int));
    let mut entries: Vec<(String, VdfValue)> = Vec::new();
    let mut p: usize = pos;
    assert(entries_of(entries@) + goal.0 =~= goal.0);
    while p < toks.len()
        invariant
            pos <= p <= toks.len(),
            tv == token_views(toks@),
            goal == parse_entries(tv.skip(pos as int)),
            entries_of(entries@) + parse_entries(tv.skip(p as int)).0 == goal.0,
            parse_entries(tv.skip(p as int)).1 == goal.1,
        decreases toks.len() - p,
    {
        let ghost cur = tv.skip(p as int);
        assert(cur[0] == toks@[p as int]@);
        if is_single(&toks[p], '}') {
            assert(cur.drop_first() =~= tv.skip(p + 1));
            assert(entries_of(entries@) + Seq::<(Seq<char>, VdfNode)>::empty() =~= entries_of(entries@));
            return (entries, p + 1);
        }
        if p + 1 == toks.len() {
            assert(tv.skip(p + 1) =~= Seq::<Seq<char>>::empty());
            assert(entries_of(entries@) + Seq::<(Seq<char>, VdfNode)>::empty() =~= entries_of(entries@));
            return (entries, p + 1);
        }
        assert(cur[1] == toks@[p + 1]@);
        assert(cur.skip(2) =~= tv.skip(p + 2));
        let key = string_of(&toks[p]);
        if is_single(&toks[p + 1], '{') {
            let (nested, q) = parse_entries_from(toks, p + 2);
            proof {
                lemma_parse_entries_rest(tv.skip(p + 2));
                assert(tv.skip(q as int).len() == toks.len() - q);
            }
            let ghost e = (key@, VdfNode::Obj(entries_of(nested@)));
            proof {
                lemma_entries_push(entries@, (key, VdfValue::Obj(nested)));
                assert(entries_of(entries@).push(e) + parse_entries(tv.skip(q as int)).0
                    =~= entries_of(entries@) + (seq![e] + parse_entries(tv.skip(q as int)).0));
            }
            entries.push((key, VdfValue::Obj(nested)));
            p = q;
        } else {
            let val = string_of(&toks[p + 1]);
            let ghost e = (key@, VdfNode::Str(val@));
            proof {
                lemma_entries_push(entries@, (key, VdfValue::Str(val)));
                assert(entries_of(entries@).push(e) + parse_entries(tv.skip(p + 2)).0
                    =~= entries_of(entries@) + (seq![e] + parse_entries(tv.skip(p + 2)).0));
            }
            entries.push((key, VdfValue::Str(val)));
            p = p + 2;
        }
    }
    assert(tv.skip(p as int) =~= Seq::<Seq<char>>::empty());
    assert(entries_of(entries@) + Seq::<(Seq<char>, VdfNode)>::empty() =~= entries_of(entries@));
    (entries, p)
}

pub proof fn lemma_entries_push(es: Seq<(String, VdfValue)>, e: (String, VdfValue))
    ensures
        entries_of(es.push(e)) == entries_of(es).push((e.0@, node_of(&e.1))),
{
    lemma_entries_of(es);
    lemma_entries_of(es.push(e));
    assert(entries_of(es.push(e)) =~= entries_of(es).push((e.0@, node_of(&e.1))));
}

/// Appends the text of one entry at nesting depth `depth`, whose indentation
/// `indent` holds.
fn write_entry_into(buf: &mut String, key: &str, val: &VdfValue, indent: &String, Ghost(depth): Ghost<nat>)
    requires
        indent@ == tabs(depth),
    ensures
        final(buf)@ == old(buf)@ + write_entry(key@, val@, depth),
    decreases val,
{
    let ghost start = buf@;
    match val {
        VdfValue::Str(s) => {
            buf.push_str(indent.as_str());
            push_quoted(buf, key);
            buf.push('\t');
            buf.push('\t');
            push_quoted(buf, s.as_str());
            buf.push('\n');
            assert(buf@ =~= start + write_entry(key@, val@, depth));
        },
        VdfValue::Obj(children) => {
            buf.push_str(indent.as_str());
            push_quoted(buf, key);
            buf.push('\n');
            buf.push_str(indent.as_str());
            buf.push('{');
            buf.push('\n');
            let ghost mid = buf@;
            let ghost ces = entries_of(children@);
            proof { lemma_entries_of(children@); }
            let mut inner = indent.clone();
            inner.push('\t');
            assert(inner@ =~= tabs(depth + 1));
            let mut i: usize = 0;
            assert(ces.take(0) =~= Seq::<(Seq<char>, VdfNode)>::empty());
            assert(mid + write_entries(ces.take(0), depth + 1) =~= mid);
            while i < children.len()
                invariant
                    i <= children.len(),
                    ces == entries_of(children@),
                    ces.len() == children@.len(),
                    forall|j: int| 0 <= j < children@.len() ==> #[trigger] ces[j] == (children@[j].0@, node_of(&children@[j].1)),
                    inner@ == tabs(depth + 1),
                    buf@ == mid + write_entries(ces.take(i as int), depth + 1),
                    val@ == VdfNode::Obj(ces),
                    *val == VdfValue::Obj(*children),
                decreases children.len() - i,
            {
                proof {
                    assert(decreases_to!(*val => *children));
                    assert(decreases_to!(*children => children@));
                    assert(decreases_to!(children@ => children@[i as int]));
                    assert(decreases_to!(children@[i as int] => children@[i as int].1));
                }
                write_entry_into(buf, children[i].0.as_str(), &children[i].1, &inner, Ghost(depth + 1));
                proof {
                    assert(ces.take(i as int + 1) =~= ces.take(i as int) + seq![ces[i as int]]);
                    lemma_write_entries_append(ces.take(i as int), seq![ces[i as int]], depth + 1);
                    lemma_write_entries_single(ces[i as int], depth + 1);
                }
                i = i + 1;
            }
            buf.push_str(indent.as_str());
            buf.push('}');
            buf.push('\n');
            proof {
                assert(ces.take(children.len() as int) =~= ces);
                assert(buf@ =~= start + write_entry(key@, val@, depth));
            }
        },
    }
}

/// Reader and writer of VDF text.
pub struct VdfParser;

impl VdfParser {
    /// Reads a VDF text: the entries found in it, as an object.
    pub fn parse(input: &str) -> (r: Option<VdfValue>)
        ensures
            r is Some,
            r->0@ == parse_document(input@),
    {
        let chars = chars_of(input);
        let toks = tokenize_chars(&chars);
        assert(token_views(toks@).skip(0) =~= token_views(toks@));
        let (entries, _end) = parse_entries_from(&toks, 0);
        Some(VdfValue::Obj(entries))
    }

    /// Writes a document: each entry of an object root at depth 0, nested objects
    /// as brace blocks indented by tabs; a string root writes nothing.
    pub fn serialize(root: &VdfValue) -> (s: String)
        ensures
            s@ == write_document(root@),
    {
        let mut buf = String::new();
        let top = String::new();
        assert(top@ =~= tabs(0));
        match root {
            VdfValue::Obj(entries) => {
                let ghost es = entries_of(entries@);
                proof { lemma_entries_of(entries@); }
                let mut i: usize = 0;
                assert(es.take(0) =~= Seq::<(Seq<char>, VdfNode)>::empty());
                while i < entries.len()
                    invariant
                        i <= entries.len(),
                        es == entries_of(entries@),
                        es.len() == entries@.len(),
                        forall|j: int| 0 <= j < entries@.len() ==> #[trigger] es[j] == (entries@[j].0@, node_of(&entries@[j].1)),
                        top@ == tabs(0),
                        buf@ == write_entries(es.take(i as int), 0),
                        root@ == VdfNode::Obj(es),
                    decreases entries.len() - i,
                {
                    write_entry_into(&mut buf, entries[i].0.as_str(), &entries[i].1, &top, Ghost(0));
                    proof {
                        assert(es.take(i as int + 1) =~= es.take(i as int) + seq![es[i as int]]);
                        lemma_write_entries_append(es.take(i as int), seq![es[i as int]], 0);
                        lemma_write_entries_single(es[i as int], 0);
                    }
                    i = i + 1;
                }
                assert(es.take(entries.len() as int) =~= es);
            },
            VdfValue::Str(_) => {},
        }
        buf
    }
}

} // verus!
