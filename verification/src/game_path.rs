//! Locating games on disk: a second VDF tree type with its reader and writer, and
//! what is read from Steam's library, config and app-manifest files.
use vstd::prelude::*;
use crate::paths::PathText;
use crate::text::{ascii_lower, chars_of, string_of, is_white_space, clean_library_path, clean_library_path_text,
    contains_text, strings_view, lemma_strings_view_push, contains_str, text_eq, occurs_at};
use crate::vdf_text::{token_views, tokenize_chars, is_single, push_quoted};
use crate::utils::vdf::str_seqs;
use crate::vdf_model::{VdfNode, is_delim, read_quoted, bare_run, tokenize, lemma_read_quoted_shorter,
    lemma_bare_run_bound, parse_entries, lemma_parse_entries_rest, parse_document, write_entry, write_entries, write_document, tabs, quote,
    lemma_write_entries_append, lemma_write_entries_single, key_eq, key_index, lemma_key_index, lemma_key_index_push, node_get, node_has_key,
    node_insert, path_ok, path_target, path_replace};

verus! {

/// A VDF value: a string, or an ordered list of keyed children.
pub enum VdfValue {
    Str(String),
    Obj(Vec<(String, VdfValue)>),
}

pub open spec fn node_of(v: &VdfValue) -> VdfNode
    decreases v,
{
    match v {
        VdfValue::Str(s) => VdfNode::Str(s@),
        VdfValue::Obj(es) => VdfNode::Obj(entries_of(es@)),
    }
}

pub open spec fn entries_of(es: Seq<(String, VdfValue)>) -> Seq<(Seq<char>, VdfNode)>
    decreases es,
{
    if es.len() == 0 {
        Seq::empty()
    } else {
        seq![(es[0].0@, node_of(&es[0].1))] + entries_of(es.drop_first())
    }
}

pub proof fn lemma_entries_of(es: Seq<(String, VdfValue)>)
    ensures
        entries_of(es).len() == es.len(),
        forall|i: int| 0 <= i < es.len() ==> #[trigger] entries_of(es)[i] == (es[i].0@, node_of(&es[i].1)),
    decreases es.len(),
{
    if es.len() > 0 {
        lemma_entries_of(es.drop_first());
        assert forall|i: int| 0 <= i < es.len() implies #[trigger] entries_of(es)[i] == (es[i].0@, node_of(&es[i].1)) by {
            if i > 0 {
                assert(es[i] == es.drop_first()[i - 1]);
            }
        }
    }
}

pub proof fn lemma_entries_of_update(es: Seq<(String, VdfValue)>, i: int)
    requires
        0 <= i < es.len(),
    ensures
        forall|e: (String, VdfValue)| e.0 == es[i].0 ==> entries_of(#[trigger] es.update(i, e))
            == entries_of(es).update(i, (entries_of(es)[i].0, node_of(&e.1))),
{
    assert forall|e: (String, VdfValue)| e.0 == es[i].0 implies #[trigger] entries_of(es.update(i, e))
        == entries_of(es).update(i, (entries_of(es)[i].0, node_of(&e.1))) by {
        lemma_entries_of(es);
        lemma_entries_of(es.update(i, e));
        assert(entries_of(es.update(i, e)) =~= entries_of(es).update(i, (entries_of(es)[i].0, node_of(&e.1))));
    }
}

impl View for VdfValue {
    type V = VdfNode;

    open spec fn view(&self) -> VdfNode {
        node_of(self)
    }
}

impl VdfValue {
    /// Position of the first entry whose key matches `key` (ASCII case ignored).
    fn index_of_key(es: &Vec<(String, VdfValue)>, key: &str) -> (r: Option<usize>)
        ensures
            match r {
                Some(i) => i < es@.len() && i as int == key_index(entries_of(es@), key@),
                None => key_index(entries_of(es@), key@) == -1,
            },
    {
        proof {
            lemma_entries_of(es@);
            lemma_key_index(entries_of(es@), key@);
        }
        let mut i: usize = 0;
        while i < es.len()
            invariant
                i <= es.len(),
                entries_of(es@).len() == es@.len(),
                forall|j: int| 0 <= j < es@.len() ==> #[trigger] entries_of(es@)[j] == (es@[j].0@, node_of(&es@[j].1)),
                forall|j: int| 0 <= j < i ==> !key_eq(#[trigger] entries_of(es@)[j].0, key@),
                -1 <= key_index(entries_of(es@), key@) < es@.len(),
                key_index(entries_of(es@), key@) >= 0 ==> key_eq(entries_of(es@)[key_index(entries_of(es@), key@)].0, key@),
                forall|j: int| 0 <= j < es@.len() && (key_index(entries_of(es@), key@) < 0 || j < key_index(entries_of(es@), key@))
                    ==> !key_eq(#[trigger] entries_of(es@)[j].0, key@),
            decreases es.len() - i,
        {
            assert(entries_of(es@)[i as int] == (es@[i as int].0@, node_of(&es@[i as int].1)));
            if es[i].0.as_str().eq_ignore_ascii_case(key) {
                proof {
                    let k = key_index(entries_of(es@), key@);
                    assert(key_eq(entries_of(es@)[i as int].0, key@));
                    if k >= 0 && k < i {
                        assert(!key_eq(entries_of(es@)[k].0, key@));
                    }
                }
                return Some(i);
            }
            i = i + 1;
        }
        None
    }

    /// Whether this is an object with an entry under `key` (ASCII case ignored).
    pub fn has_key(&self, key: &str) -> (r: bool)
        ensures
            r == node_has_key(self@, key@),
    {
        match self {
            VdfValue::Obj(es) => Self::index_of_key(es, key).is_some(),
            VdfValue::Str(_) => false,
        }
    }

    /// A mutable handle on the value of the first entry under `key` (ASCII case
    /// ignored); what is written through it lands in that entry.
    pub fn get_mut(&mut self, key: &str) -> (r: Option<&mut VdfValue>)
        ensures
            node_get(old(self)@, key@) is None ==> r is None && *final(self) == *old(self),
            node_get(old(self)@, key@) is Some ==> {
                let es0 = old(self)->Obj_0@;
                let i = key_index(entries_of(es0), key@);
                &&& r is Some
                &&& 0 <= i < es0.len()
                &&& *r->0 == es0[i].1
                &&& *final(self) is Obj
                &&& final(self)->Obj_0@ == es0.update(i, (es0[i].0, *final(r->0)))
                &&& final(self)@ == VdfNode::Obj(entries_of(es0).update(i, (entries_of(es0)[i].0, (*final(r->0))@)))
            },
    {
        match self {
            VdfValue::Obj(es) => {
                proof { lemma_entries_of(es@); }
                match Self::index_of_key(es, key) {
                    Some(i) => {
                        proof { lemma_entries_of_update(es@, i as int); }
                        Some(&mut es[i].1)
                    },
                    None => None,
                }
            },
            VdfValue::Str(_) => None,
        }
    }

    /// Walks `path[k..]` from this value, creating empty objects for missing keys,
    /// and hands out the value at its end.
    fn ensure_path_from(&mut self, path: &[&str], k: usize) -> (r: Option<&mut VdfValue>)
        requires
            k <= path@.len(),
        ensures
            !path_ok(old(self)@, str_seqs(path@).skip(k as int)) ==> r is None,
            !path_ok(old(self)@, str_seqs(path@).skip(k as int)) ==> final(self)@ == old(self)@,
            path_ok(old(self)@, str_seqs(path@).skip(k as int)) ==> r is Some,
            path_ok(old(self)@, str_seqs(path@).skip(k as int)) ==> (*r->0)@ == path_target(old(self)@, str_seqs(path@).skip(k as int)),
            path_ok(old(self)@, str_seqs(path@).skip(k as int)) ==> final(self)@ == path_replace(old(self)@, str_seqs(path@).skip(k as int), (*final(r->0))@),
        decreases path@.len() - k,
    {
        let ghost p = str_seqs(path@).skip(k as int);
        if k == path.len() {
            return Some(self);
        }
        let seg: &str = path[k];
        assert(p[0] == seg@);
        assert(p.drop_first() =~= str_seqs(path@).skip(k as int + 1));
        let ghost v0 = self@;
        if !self.has_key(seg) {
            self.insert_or_update(seg.to_string(), VdfValue::Obj(Vec::new()));
            proof {
                if let VdfNode::Obj(es) = v0 {
                    lemma_key_index_push(es, (seg@, VdfNode::Obj(Seq::empty())), seg@);
                }
            }
        }
        let ghost v1 = self@;
        proof {
            // Walking from the value after the insertion is walking from the original one.
            if let VdfNode::Obj(es) = v0 {
                let i = key_index(es, seg@);
                if i < 0 {
                    let es1 = es.push((seg@, VdfNode::Obj(Seq::empty())));
                    assert(v1 == VdfNode::Obj(es1));
                    assert forall|x: VdfNode| path_replace(v1, p, x) == #[trigger] path_replace(v0, p, x) by {
                        assert(es1.update(es.len() as int, (es1[es.len() as int].0,
                            path_replace(es1[es.len() as int].1, p.drop_first(), x)))
                            =~= es.push((p[0], path_replace(VdfNode::Obj(Seq::empty()), p.drop_first(), x))));
                    }
                }
            }
        }
        proof {
            if let VdfValue::Obj(es) = self {
                lemma_entries_of(es@);
                lemma_key_index(entries_of(es@), seg@);
                let i = key_index(entries_of(es@), seg@);
                assert(i >= 0);
                if i >= 0 {
                    lemma_entries_of_update(es@, i);
                    let e1 = entries_of(es@);
                    assert(e1.update(i, (e1[i].0, e1[i].1)) =~= e1);
                    assert(v1 == VdfNode::Obj(e1));
                    assert forall|x: VdfNode| #[trigger] path_replace(v1, p, x)
                        == VdfNode::Obj(e1.update(i, (e1[i].0, path_replace(node_of(&es@[i].1), p.drop_first(), x)))) by {
                    }
                    assert(path_ok(v1, p) == path_ok(node_of(&es@[i].1), p.drop_first()));
                    assert(path_target(v1, p) == path_target(node_of(&es@[i].1), p.drop_first()));
                }
            }
        }
        match self.get_mut(seg) {
            Some(next) => {
                next.ensure_path_from(path, k + 1)
            },
            None => None,
        }
    }

    /// Walks `path` from this value, creating an empty object for each missing key,
    /// and hands out the value at its end. The walk must not meet a string value.
    pub fn ensure_path(&mut self, path: &[&str]) -> (r: Option<&mut VdfValue>)
        requires
            path_ok(old(self)@, str_seqs(path@)),
        ensures
            r is Some,
            (*r->0)@ == path_target(old(self)@, str_seqs(path@)),
            final(self)@ == path_replace(old(self)@, str_seqs(path@), (*final(r->0))@),
    {
        assert(str_seqs(path@).skip(0) =~= str_seqs(path@));
        self.ensure_path_from(path, 0)
    }

    /// Stores `value` under `key`: the first matching entry takes the new value,
    /// or a new entry is appended. A string value is left unchanged.
    pub fn insert_or_update(&mut self, key: String, value: VdfValue)
        ensures
            final(self)@ == node_insert(old(self)@, key@, value@),
    {
        match self {
            VdfValue::Obj(es) => {
                proof { lemma_entries_of(es@); }
                match Self::index_of_key(es, key.as_str()) {
                    Some(i) => {
                        let k = es[i].0.clone();
                        es.set(i, (k, value));
                        proof {
                            lemma_entries_of(es@);
                            assert(entries_of(es@) =~= entries_of(old(self)->Obj_0@).update(i as int, (entries_of(old(self)->Obj_0@)[i as int].0, value@)));
                        }
                    },
                    None => {
                        es.push((key, value));
                        proof {
                            lemma_entries_of(es@);
                            assert(entries_of(es@) =~= entries_of(old(self)->Obj_0@).push((key@, value@)));
                        }
                    },
                }
            },
            VdfValue::Str(_) => {},
        }
    }
}


pub proof fn lemma_entries_push(es: Seq<(String, VdfValue)>, e: (String, VdfValue))
    ensures
        entries_of(es.push(e)) == entries_of(es).push((e.0@, node_of(&e.1))),
{
    lemma_entries_of(es);
    lemma_entries_of(es.push(e));
    assert(entries_of(es.push(e)) =~= entries_of(es).push((e.0@, node_of(&e.1))));
}

/// Finds games and the apps that own depots from Steam's files.
pub struct GamePathFinder;

impl GamePathFinder {
    /// Reads a VDF text: the entries found in it, as an object.
    pub fn parse_vdf(input: &str) -> (r: Option<VdfValue>)
        ensures
            r is Some,
            r->0@ == parse_document(input@),
    {
        let chars = chars_of(input);
        let toks = tokenize_chars(&chars);
        assert(token_views(toks@).skip(0) =~= token_views(toks@));
        let (entries, _end) = Self::parse_obj(&toks, 0);
        Some(VdfValue::Obj(entries))
    }

    /// Reads entries from `toks[pos..]` up to the matching closing brace or the end;
    /// returns them and the position after what was consumed.
    fn parse_obj(toks: &Vec<Vec<char>>, pos: usize) -> (res: (Vec<(String, VdfValue)>, usize))
        requires
            pos <= toks.len(),
        ensures
            pos <= res.1 <= toks.len(),
            entries_of(res.0@) == parse_entries(token_views(toks@).skip(pos as int)).0,
            token_views(toks@).skip(res.1 as int) == parse_entries(token_views(toks@).skip(pos as int)).1,
        decreases toks.len() - pos,
    {
        let ghost tv = token_views(toks@);
        let ghost goal = parse_entries(tv.skip(pos as int));
        let mut entries: Vec<(String, VdfValue)> = Vec::new();
        let mut p: usize = pos;
        assert(entries_of(entries@) + goal.0 =~= goal.0);
        while p < toks.len()
            invariant
                pos <= p <= toks.len(),
                tv == token_views(toks@),
                goal == parse_entries(tv.skip(pos as int)),
                entries_of(entries@) + parse_entries(tv.skip(p as int)).0 == goal.0,
                parse_entries(tv.skip(p as int)).1 == goal.1,
            decreases toks.len() - p,
        {
            let ghost cur = tv.skip(p as int);
            assert(cur[0] == toks@[p as int]@);
            if is_single(&toks[p], '}') {
                assert(cur.drop_first() =~= tv.skip(p + 1));
                assert(entries_of(entries@) + Seq::<(Seq<char>, VdfNode)>::empty() =~= entries_of(entries@));
                return (entries, p + 1);
            }
            if p + 1 == toks.len() {
                assert(tv.skip(p + 1) =~= Seq::<Seq<char>>::empty());
                assert(entries_of(entries@) + Seq::<(Seq<char>, VdfNode)>::empty() =~= entries_of(entries@));
                return (entries, p + 1);
            }
            assert(cur[1] == toks@[p + 1]@);
            assert(cur.skip(2) =~= tv.skip(p + 2));
            let key = string_of(&toks[p]);
            if is_single(&toks[p + 1], '{') {
                let (nested, q) = Self::parse_obj(toks, p + 2);
                proof {
                    lemma_parse_entries_rest(tv.skip(p + 2));
                    assert(tv.skip(q as int).len() == toks.len() - q);
                }
                let ghost e = (key@, VdfNode::Obj(entries_of(nested@)));
                proof {
                    lemma_entries_push(entries@, (key, VdfValue::Obj(nested)));
                    assert(entries_of(entries@).push(e) + parse_entries(tv.skip(q as int)).0
                        =~= entries_of(entries@) + (seq![e] + parse_entries(tv.skip(q as int)).0));
                }
                entries.push((key, VdfValue::Obj(nested)));
                p = q;
            } else {
                let val = string_of(&toks[p + 1]);
                let ghost e = (key@, VdfNode::Str(val@));
                proof {
                    lemma_entries_push(entries@, (key, VdfValue::Str(val)));
                    assert(entries_of(entries@).push(e) + parse_entries(tv.skip(p + 2)).0
                        =~= entries_of(entries@) + (seq![e] + parse_entries(tv.skip(p + 2)).0));
                }
                entries.push((key, VdfValue::Str(val)));
                p = p + 2;
            }
        }
        assert(tv.skip(p as int) =~= Seq::<Seq<char>>::empty());
        assert(entries_of(entries@) + Seq::<(Seq<char>, VdfNode)>::empty() =~= entries_of(entries@));
        (entries, p)
    }

    /// Writes a document: each entry of an object root at depth 0, nested objects
    /// as brace blocks indented by tabs; a string root writes nothing.
    pub fn serialize_vdf(val: &VdfValue) -> (s: String)
        ensures
            s@ == write_document(val@),
    {
        let mut buf = String::new();
        let top = String::new();
        assert(top@ =~= tabs(0));
        Self::serialize_recursive(val, &mut buf, &top, Ghost(0));
        proof {
            if let VdfNode::Obj(es) = val@ {
                assert(Seq::<char>::empty() + write_entries(es, 0) =~= write_entries(es, 0));
            }
        }
        buf
    }

    /// Appends the entries of an object value at nesting depth `depth`, whose
    /// indentation `indent` holds.
    fn serialize_recursive(val: &VdfValue, buf: &mut String, indent: &String, Ghost(depth): Ghost<nat>)
        requires
            indent@ == tabs(depth),
        ensures
            final(buf)@ == old(buf)@ + match val@ {
                VdfNode::Obj(es) => write_entries(es, depth),
                VdfNode::Str(_) => Seq::empty(),
            },
        decreases val,
    {
        let ghost start = buf@;
        match val {
            VdfValue::Obj(entries) => {
                let ghost ces = entries_of(entries@);
                proof { lemma_entries_of(entries@); }
                let mut inner = indent.clone();
                inner.push('\t');
                assert(inner@ =~= tabs(depth + 1));
                let mut i: usize = 0;
                assert(ces.take(0) =~= Seq::<(Seq<char>, VdfNode)>::empty());
                assert(start + write_entries(ces.take(0), depth) =~= start);
                while i < entries.len()
                    invariant
                        i <= entries.len(),
                        ces == entries_of(entries@),
                        ces.len() == entries@.len(),
                        forall|j: int| 0 <= j < entries@.len() ==> #[trigger] ces[j] == (entries@[j].0@, node_of(&entries@[j].1)),
                        indent@ == tabs(depth),
                        inner@ == tabs(depth + 1),
                        buf@ == start + write_entries(ces.take(i as int), depth),
                        val@ == VdfNode::Obj(ces),
                        *val == VdfValue::Obj(*entries),
                    decreases entries.len() - i,
                {
                    let ghost before = buf@;
                    let k = &entries[i].0;
                    let v = &entries[i].1;
                    buf.push_str(indent.as_str());
                    push_quoted(buf, k.as_str());
                    match v {
                        VdfValue::Str(s) => {
                            buf.push('\t');
                            buf.push('\t');
                            push_quoted(buf, s.as_str());
                            buf.push('\n');
                            assert(buf@ =~= before + write_entry(k@, v@, depth));
                        },
                        VdfValue::Obj(_) => {
                            buf.push('\n');
                            buf.push_str(indent.as_str());
                            buf.push('{');
                            buf.push('\n');
                            proof {
                                assert(decreases_to!(*val => *entries));
                                assert(decreases_to!(*entries => entries@));
                                assert(decreases_to!(entries@ => entries@[i as int]));
                                assert(decreases_to!(entries@[i as int] => entries@[i as int].1));
                            }
                            Self::serialize_recursive(v, buf, &inner, Ghost(depth + 1));
                            buf.push_str(indent.as_str());
                            buf.push('}');
                            buf.push('\n');
                            assert(buf@ =~= before + write_entry(k@, v@, depth));
                        },
                    }
                    proof {
                        assert(ces[i as int] == (k@, v@));
                        assert(ces.take(i as int + 1) =~= ces.take(i as int) + seq![ces[i as int]]);
                        lemma_write_entries_append(ces.take(i as int), seq![ces[i as int]], depth);
                        lemma_write_entries_single(ces[i as int], depth);
                    }
                    i = i + 1;
                }
                assert(ces.take(entries.len() as int) =~= ces);
            },
            VdfValue::Str(_) => {
                assert(start + Seq::<char>::empty() =~= start);
            },
        }
    }
}


// ---------------------------------------------------------------------------
// What is read from Steam's files
// ---------------------------------------------------------------------------

/// The node that lists libraries in `libraryfolders.vdf`: the value of the first
/// root entry keyed `libraryfolders`, or the whole document when there is none.
pub open spec fn library_root(parsed: VdfNode) -> VdfNode {
    match parsed {
        VdfNode::Obj(es) => {
            let i = key_index(es, "libraryfolders"@);
            if i >= 0 {
                es[i].1
            } else {
                parsed
            }
        },
        VdfNode::Str(_) => parsed,
    }
}

/// The cleaned string values of every entry keyed `path` among `props`, in order.
pub open spec fn path_values(props: Seq<(Seq<char>, VdfNode)>) -> Seq<Seq<char>>
    decreases props.len(),
{
    if props.len() == 0 {
        Seq::empty()
    } else {
        let rest = path_values(props.drop_last());
        let e = props.last();
        if key_eq(e.0, "path"@) && e.1 is Str {
            rest.push(clean_library_path(e.1->Str_0))
        } else {
            rest
        }
    }
}

pub open spec fn library_entry_paths(libs: Seq<(Seq<char>, VdfNode)>) -> Seq<Seq<char>>
    decreases libs.len(),
{
    if libs.len() == 0 {
        Seq::empty()
    } else {
        library_entry_paths(libs.drop_last()) + match libs.last().1 {
            VdfNode::Obj(props) => path_values(props),
            VdfNode::Str(_) => Seq::empty(),
        }
    }
}

/// The library folder paths that `libraryfolders.vdf` lists: for each library
/// object, the values of its `path` entries, cleaned.
pub open spec fn library_paths(parsed: VdfNode) -> Seq<Seq<char>> {
    match library_root(parsed) {
        VdfNode::Obj(libs) => library_entry_paths(libs),
        VdfNode::Str(_) => Seq::empty(),
    }
}

/// A `depots` entry that has the depot's key.
pub open spec fn lists_depot(e: (Seq<char>, VdfNode), depot: Seq<char>) -> bool {
    key_eq(e.0, "depots"@) && node_has_key(e.1, depot)
}

pub open spec fn some_field_lists_depot(fields: Seq<(Seq<char>, VdfNode)>, depot: Seq<char>) -> bool {
    exists|j: int| 0 <= j < fields.len() && #[trigger] lists_depot(fields[j], depot)
}

/// An app entry owns a depot when one of its `depots` entries has the depot's key.
pub open spec fn owns_depot(data: VdfNode, depot: Seq<char>) -> bool {
    match data {
        VdfNode::Obj(fields) => some_field_lists_depot(fields, depot),
        VdfNode::Str(_) => false,
    }
}

/// The key of the first app that owns the depot.
pub open spec fn first_owner(apps: Seq<(Seq<char>, VdfNode)>, depot: Seq<char>) -> Option<Seq<char>>
    decreases apps.len(),
{
    if apps.len() == 0 {
        None
    } else {
        match first_owner(apps.drop_last(), depot) {
            Some(x) => Some(x),
            None => if owns_depot(apps.last().1, depot) {
                Some(apps.last().0)
            } else {
                None
            },
        }
    }
}

/// The app that owns a depot according to `config.vdf`: the first entry under
/// InstallConfigStore/Software/Valve/Steam/Apps (first matching keys) that lists it
/// among its depots.
pub open spec fn parent_for_depot(root: VdfNode, depot: Seq<char>) -> Option<Seq<char>> {
    match node_get(root, "InstallConfigStore"@) {
        None => None,
        Some(n1) => match node_get(n1, "Software"@) {
            None => None,
            Some(n2) => match node_get(n2, "Valve"@) {
                None => None,
                Some(n3) => match node_get(n3, "Steam"@) {
                    None => None,
                    Some(n4) => match node_get(n4, "Apps"@) {
                        Some(VdfNode::Obj(apps)) => first_owner(apps, depot),
                        _ => None,
                    },
                },
            },
        },
    }
}

pub proof fn lemma_first_owner_prefix(apps: Seq<(Seq<char>, VdfNode)>, depot: Seq<char>, n: int, m: int)
    requires
        0 <= n <= m <= apps.len(),
        first_owner(apps.take(n), depot) is Some,
    ensures
        first_owner(apps.take(m), depot) == first_owner(apps.take(n), depot),
    decreases m - n,
{
    if m > n {
        lemma_first_owner_prefix(apps, depot, n, m - 1);
        assert(apps.take(m).drop_last() =~= apps.take(m - 1));
    }
}

pub open spec fn same_key(e: (Seq<char>, VdfNode), depot: Seq<char>) -> bool {
    e.0 == depot
}

pub open spec fn some_key_is(ds: Seq<(Seq<char>, VdfNode)>, depot: Seq<char>) -> bool {
    exists|j: int| 0 <= j < ds.len() && #[trigger] same_key(ds[j], depot)
}

/// Whether a `MountedDepots` value lists the depot (exact key match).
pub open spec fn mounts_depot(v: VdfNode, depot: Seq<char>) -> bool {
    match v {
        VdfNode::Obj(ds) => some_key_is(ds, depot),
        VdfNode::Str(_) => false,
    }
}

/// Scans the fields of an app-manifest section: the last string `appid` seen, and
/// whether some `MountedDepots` lists the depot.
pub open spec fn scan_fields(fields: Seq<(Seq<char>, VdfNode)>, depot: Seq<char>) -> (Option<Seq<char>>, bool)
    decreases fields.len(),
{
    if fields.len() == 0 {
        (None, false)
    } else {
        let r = scan_fields(fields.drop_last(), depot);
        let e = fields.last();
        let app = if key_eq(e.0, "appid"@) && e.1 is Str {
            Some(e.1->Str_0)
        } else {
            r.0
        };
        (app, r.1 || (key_eq(e.0, "MountedDepots"@) && mounts_depot(e.1, depot)))
    }
}

/// The first top-level section that mounts the depot decides: its app id (which
/// may be absent). `None` when no section mounts it.
pub open spec fn scan_sections(es: Seq<(Seq<char>, VdfNode)>, depot: Seq<char>) -> Option<Option<Seq<char>>>
    decreases es.len(),
{
    if es.len() == 0 {
        None
    } else {
        match scan_sections(es.drop_last(), depot) {
            Some(x) => Some(x),
            None => match es.last().1 {
                VdfNode::Obj(fields) => if scan_fields(fields, depot).1 {
                    Some(scan_fields(fields, depot).0)
                } else {
                    None
                },
                VdfNode::Str(_) => None,
            },
        }
    }
}

pub proof fn lemma_scan_sections_prefix(es: Seq<(Seq<char>, VdfNode)>, depot: Seq<char>, n: int, m: int)
    requires
        0 <= n <= m <= es.len(),
        scan_sections(es.take(n), depot) is Some,
    ensures
        scan_sections(es.take(m), depot) == scan_sections(es.take(n), depot),
    decreases m - n,
{
    if m > n {
        lemma_scan_sections_prefix(es, depot, n, m - 1);
        assert(es.take(m).drop_last() =~= es.take(m - 1));
    }
}

/// What one app manifest says about the owner of a depot: nothing unless its text
/// mentions the depot; otherwise the verdict of the section scan.
pub open spec fn manifest_owner(content: Seq<char>, depot: Seq<char>) -> Option<Option<Seq<char>>> {
    if !contains_text(content, depot) {
        None
    } else {
        match parse_document(content) {
            VdfNode::Obj(es) => scan_sections(es, depot),
            VdfNode::Str(_) => None,
        }
    }
}

/// The `"installdir"` key with its quotes.
pub open spec fn installdir_key() -> Seq<char> {
    seq!['"', 'i', 'n', 's', 't', 'a', 'l', 'l', 'd', 'i', 'r', '"']
}

/// Length of the leading run of whitespace.
pub open spec fn white_run(s: Seq<char>) -> nat
    decreases s.len(),
{
    if s.len() == 0 || !is_white_space(s[0]) {
        0
    } else {
        1 + white_run(s.drop_first())
    }
}

/// Position of the first quote, provided no newline comes before it.
pub open spec fn quote_before_newline(t: Seq<char>) -> Option<nat>
    decreases t.len(),
{
    if t.len() == 0 || t[0] == '\n' {
        None
    } else if t[0] == '"' {
        Some(0)
    } else {
        match quote_before_newline(t.drop_first()) {
            Some(j) => Some(j + 1),
            None => None,
        }
    }
}

/// Length of the shortest run of one or more non-newline characters followed by a
/// quote, at the start of `s`.
pub open spec fn lazy_capture(s: Seq<char>) -> Option<nat> {
    if s.len() == 0 || s[0] == '\n' {
        None
    } else {
        match quote_before_newline(s.drop_first()) {
            Some(j) => Some(j + 1),
            None => None,
        }
    }
}

/// The install directory captured at position `p`: `"installdir"`, one or more
/// whitespace characters, a quote, then the shortest non-empty run of non-newline
/// characters up to a quote.
pub open spec fn installdir_at(s: Seq<char>, p: int) -> Option<Seq<char>> {
    if 0 <= p && p + 12 <= s.len() && s.subrange(p, p + 12) == installdir_key() {
        let q = p + 12;
        let a = q + white_run(s.skip(q));
        if white_run(s.skip(q)) >= 1 && a < s.len() && s[a] == '"' {
            match lazy_capture(s.skip(a + 1)) {
                Some(j) => Some(s.subrange(a + 1, a + 1 + j)),
                None => None,
            }
        } else {
            None
        }
    } else {
        None
    }
}

/// The capture at the leftmost position where one exists, from `p` on.
pub open spec fn installdir_from(s: Seq<char>, p: int) -> Option<Seq<char>>
    decreases s.len() - p,
{
    if p < 0 || p >= s.len() {
        None
    } else {
        match installdir_at(s, p) {
            Some(c) => Some(c),
            None => installdir_from(s, p + 1),
        }
    }
}

impl GamePathFinder {
    fn child<'a>(v: &'a VdfValue, key: &str) -> (r: Option<&'a VdfValue>)
        ensures
            match node_get(v@, key@) {
                None => r is None,
                Some(n) => r is Some && r->0@ == n,
            },
    {
        match v {
            VdfValue::Obj(es) => {
                proof { lemma_entries_of(es@); }
                match VdfValue::index_of_key(es, key) {
                    Some(i) => Some(&es[i].1),
                    None => None,
                }
            },
            VdfValue::Str(_) => None,
        }
    }

    /// The cleaned `path` values of the libraries that a parsed
    /// `libraryfolders.vdf` lists, in order.
    pub fn library_paths_in(parsed: &VdfValue) -> (r: Vec<String>)
        ensures
            strings_view(r@) == library_paths(parsed@),
    {
        let mut out: Vec<String> = Vec::new();
        let lf = Self::child(parsed, "libraryfolders");
        let root: &VdfValue = match lf {
            Some(x) => x,
            None => parsed,
        };
        assert(root@ == library_root(parsed@));
        match root {
            VdfValue::Obj(libs) => {
                let ghost ls = entries_of(libs@);
                proof { lemma_entries_of(libs@); }
                let mut i: usize = 0;
                assert(ls.take(0) =~= Seq::<(Seq<char>, VdfNode)>::empty());
                while i < libs.len()
                    invariant
                        i <= libs.len(),
                        ls == entries_of(libs@),
                        ls.len() == libs@.len(),
                        forall|j: int| 0 <= j < libs@.len() ==> #[trigger] ls[j] == (libs@[j].0@, node_of(&libs@[j].1)),
                        strings_view(out@) == library_entry_paths(ls.take(i as int)),
                    decreases libs.len() - i,
                {
                    let ghost before = strings_view(out@);
                    assert(ls.take(i as int + 1).drop_last() =~= ls.take(i as int));
                    assert(ls.take(i as int + 1).last() == ls[i as int]);
                    match &libs[i].1 {
                        VdfValue::Obj(props) => {
                            let ghost ps = entries_of(props@);
                            proof { lemma_entries_of(props@); }
                            let mut k: usize = 0;
                            assert(ps.take(0) =~= Seq::<(Seq<char>, VdfNode)>::empty());
                            assert(before + path_values(ps.take(0)) =~= before);
                            while k < props.len()
                                invariant
                                    k <= props.len(),
                                    ps == entries_of(props@),
                                    ps.len() == props@.len(),
                                    forall|j: int| 0 <= j < props@.len() ==> #[trigger] ps[j] == (props@[j].0@, node_of(&props@[j].1)),
                                    strings_view(out@) == before + path_values(ps.take(k as int)),
                                decreases props.len() - k,
                            {
                                assert(ps.take(k as int + 1).drop_last() =~= ps.take(k as int));
                                assert(ps.take(k as int + 1).last() == ps[k as int]);
                                if props[k].0.as_str().eq_ignore_ascii_case("path") {
                                    match &props[k].1 {
                                        VdfValue::Str(s) => {
                                            let c = clean_library_path_text(s.as_str());
                                            proof {
                                                lemma_strings_view_push(out@, c);
                                                assert((before + path_values(ps.take(k as int))).push(c@)
                                                    =~= before + path_values(ps.take(k as int)).push(c@));
                                            }
                                            out.push(c);
                                        },
                                        VdfValue::Obj(_) => {},
                                    }
                                }
                                k = k + 1;
                            }
                            assert(ps.take(props.len() as int) =~= ps);
                        },
                        VdfValue::Str(_) => {
                            assert(before + Seq::<Seq<char>>::empty() =~= before);
                        },
                    }
                    i = i + 1;
                }
                assert(ls.take(libs.len() as int) =~= ls);
            },
            VdfValue::Str(_) => {
                assert(strings_view(out@) =~= Seq::<Seq<char>>::empty());
            },
        }
        out
    }

    fn owns_depot_exec(data: &VdfValue, depot_id: &str) -> (r: bool)
        ensures
            r == owns_depot(data@, depot_id@),
    {
        match data {
            VdfValue::Obj(fields) => {
                let ghost fs = entries_of(fields@);
                proof { lemma_entries_of(fields@); }
                let mut k: usize = 0;
                while k < fields.len()
                    invariant
                        k <= fields.len(),
                        fs == entries_of(fields@),
                        fs.len() == fields@.len(),
                        forall|j: int| 0 <= j < fields@.len() ==> #[trigger] fs[j] == (fields@[j].0@, node_of(&fields@[j].1)),
                        forall|j: int| 0 <= j < k ==> !#[trigger] lists_depot(fs[j], depot_id@),
                        *data == VdfValue::Obj(*fields),
                    decreases fields.len() - k,
                {
                    if fields[k].0.as_str().eq_ignore_ascii_case("depots") && fields[k].1.has_key(depot_id) {
                        assert(key_eq(fs[k as int].0, "depots"@) && node_has_key(fs[k as int].1, depot_id@));
                        assert(data@ == VdfNode::Obj(fs));
                        assert(lists_depot(fs[k as int], depot_id@));
                        return true;
                    }
                    k = k + 1;
                }
                false
            },
            VdfValue::Str(_) => false,
        }
    }

    /// The app that owns `depot_id` according to a parsed `config.vdf`.
    pub fn parent_for_depot_in(root: &VdfValue, depot_id: &str) -> (r: Option<String>)
        ensures
            match parent_for_depot(root@, depot_id@) {
                None => r is None,
                Some(a) => r is Some && r->0@ == a,
            },
    {
        let n1 = match Self::child(root, "InstallConfigStore") { Some(x) => x, None => return None };
        let n2 = match Self::child(n1, "Software") { Some(x) => x, None => return None };
        let n3 = match Self::child(n2, "Valve") { Some(x) => x, None => return None };
        let n4 = match Self::child(n3, "Steam") { Some(x) => x, None => return None };
        let apps_node = match Self::child(n4, "Apps") { Some(x) => x, None => return None };
        match apps_node {
            VdfValue::Obj(apps) => {
                let ghost es = entries_of(apps@);
                proof { lemma_entries_of(apps@); }
                let mut i: usize = 0;
                assert(es.take(0) =~= Seq::<(Seq<char>, VdfNode)>::empty());
                assert(parent_for_depot(root@, depot_id@) == first_owner(es, depot_id@));
                while i < apps.len()
                    invariant
                        parent_for_depot(root@, depot_id@) == first_owner(es, depot_id@),
                        i <= apps.len(),
                        es == entries_of(apps@),
                        es.len() == apps@.len(),
                        forall|j: int| 0 <= j < apps@.len() ==> #[trigger] es[j] == (apps@[j].0@, node_of(&apps@[j].1)),
                        first_owner(es.take(i as int), depot_id@) is None,
                    decreases apps.len() - i,
                {
                    assert(es.take(i as int + 1).drop_last() =~= es.take(i as int));
                    assert(es.take(i as int + 1).last() == es[i as int]);
                    if Self::owns_depot_exec(&apps[i].1, depot_id) {
                        proof {
                            assert(first_owner(es.take(i as int + 1), depot_id@) == Some(es[i as int].0));
                            lemma_first_owner_prefix(es, depot_id@, i + 1, es.len() as int);
                            assert(es.take(es.len() as int) =~= es);
                        }
                        return Some(apps[i].0.clone());
                    }
                    i = i + 1;
                }
                assert(es.take(apps.len() as int) =~= es);
                None
            },
            VdfValue::Str(_) => None,
        }
    }

    fn mounts_depot_exec(v: &VdfValue, depot_id: &str) -> (r: bool)
        ensures
            r == mounts_depot(v@, depot_id@),
    {
        match v {
            VdfValue::Obj(depots) => {
                let ghost ds = entries_of(depots@);
                proof { lemma_entries_of(depots@); }
                let mut m: usize = 0;
                while m < depots.len()
                    invariant
                        m <= depots.len(),
                        ds == entries_of(depots@),
                        ds.len() == depots@.len(),
                        forall|j: int| 0 <= j < depots@.len() ==> #[trigger] ds[j] == (depots@[j].0@, node_of(&depots@[j].1)),
                        forall|j: int| 0 <= j < m ==> !#[trigger] same_key(ds[j], depot_id@),
                        *v == VdfValue::Obj(*depots),
                    decreases depots.len() - m,
                {
                    if text_eq(depots[m].0.as_str(), depot_id) {
                        assert(same_key(ds[m as int], depot_id@));
                        assert(v@ == VdfNode::Obj(ds));
                        return true;
                    }
                    m = m + 1;
                }
                false
            },
            VdfValue::Str(_) => false,
        }
    }

    fn scan_fields_exec(fields: &Vec<(String, VdfValue)>, depot_id: &str) -> (r: (Option<String>, bool))
        ensures
            r.1 == scan_fields(entries_of(fields@), depot_id@).1,
            match scan_fields(entries_of(fields@), depot_id@).0 {
                None => r.0 is None,
                Some(a) => r.0 is Some && r.0->0@ == a,
            },
    {
        let ghost fs = entries_of(fields@);
        proof { lemma_entries_of(fields@); }
        let mut current: Option<String> = None;
        let mut found = false;
        let mut k: usize = 0;
        assert(fs.take(0) =~= Seq::<(Seq<char>, VdfNode)>::empty());
        while k < fields.len()
            invariant
                k <= fields.len(),
                fs == entries_of(fields@),
                fs.len() == fields@.len(),
                forall|j: int| 0 <= j < fields@.len() ==> #[trigger] fs[j] == (fields@[j].0@, node_of(&fields@[j].1)),
                found == scan_fields(fs.take(k as int), depot_id@).1,
                match scan_fields(fs.take(k as int), depot_id@).0 {
                    None => current is None,
                    Some(a) => current is Some && current->0@ == a,
                },
            decreases fields.len() - k,
        {
            assert(fs.take(k as int + 1).drop_last() =~= fs.take(k as int));
            assert(fs.take(k as int + 1).last() == fs[k as int]);
            let key = fields[k].0.as_str();
            if key.eq_ignore_ascii_case("appid") {
                if let VdfValue::Str(s) = &fields[k].1 {
                    current = Some(s.clone());
                }
            }
            if key.eq_ignore_ascii_case("MountedDepots") && Self::mounts_depot_exec(&fields[k].1, depot_id) {
                found = true;
            }
            k = k + 1;
        }
        assert(fs.take(fields.len() as int) =~= fs);
        (current, found)
    }

    /// What one app manifest text says about the owner of `depot_id`: `None` to
    /// keep looking; `Some(app)` to stop with that answer (which may be absent).
    pub fn manifest_owner_in(content: &str, depot_id: &str) -> (r: Option<Option<String>>)
        ensures
            match manifest_owner(content@, depot_id@) {
                None => r is None,
                Some(None) => r == Some(None::<String>),
                Some(Some(a)) => r is Some && r->0 is Some && r->0->0@ == a,
            },
    {
        if !contains_str(content, depot_id) {
            return None;
        }
        let root = match Self::parse_vdf(content) {
            Some(r) => r,
            None => return None,
        };
        match &root {
            VdfValue::Obj(es) => {
                let ghost ens = entries_of(es@);
                proof { lemma_entries_of(es@); }
                let mut i: usize = 0;
                assert(ens.take(0) =~= Seq::<(Seq<char>, VdfNode)>::empty());
                assert(manifest_owner(content@, depot_id@) == scan_sections(ens, depot_id@));
                while i < es.len()
                    invariant
                        manifest_owner(content@, depot_id@) == scan_sections(ens, depot_id@),
                        i <= es.len(),
                        ens == entries_of(es@),
                        ens.len() == es@.len(),
                        forall|j: int| 0 <= j < es@.len() ==> #[trigger] ens[j] == (es@[j].0@, node_of(&es@[j].1)),
                        scan_sections(ens.take(i as int), depot_id@) is None,
                    decreases es.len() - i,
                {
                    assert(ens.take(i as int + 1).drop_last() =~= ens.take(i as int));
                    assert(ens.take(i as int + 1).last() == ens[i as int]);
                    if let VdfValue::Obj(fields) = &es[i].1 {
                        let (current, found) = Self::scan_fields_exec(fields, depot_id);
                        if found {
                            proof {
                                assert(scan_sections(ens.take(i as int + 1), depot_id@) == Some(scan_fields(entries_of(fields@), depot_id@).0));
                                lemma_scan_sections_prefix(ens, depot_id@, i + 1, ens.len() as int);
                                assert(ens.take(ens.len() as int) =~= ens);
                            }
                            return Some(current);
                        }
                    }
                    i = i + 1;
                }
                assert(ens.take(es.len() as int) =~= ens);
                None
            },
            VdfValue::Str(_) => None,
        }
    }

    /// The install directory named in an app manifest text: the capture of
    /// `"installdir"\s+"(.+?)"` at its leftmost match.
    pub fn extract_install_dir(manifest_content: &str) -> (r: Option<String>)
        ensures
            match installdir_from(manifest_content@, 0) {
                None => r is None,
                Some(d) => r is Some && r->0@ == d,
            },
    {
        let s = chars_of(manifest_content);
        let key: Vec<char> = vec!['"', 'i', 'n', 's', 't', 'a', 'l', 'l', 'd', 'i', 'r', '"'];
        assert(key@ =~= installdir_key());
        let mut p: usize = 0;
        while p < s.len()
            invariant
                p <= s.len(),
                s@ == manifest_content@,
                key@ == installdir_key(),
                installdir_from(s@, 0) == installdir_from(s@, p as int),
            decreases s.len() - p,
        {
            if s.len() >= 12 && p <= s.len() - 12 && occurs_at(&s, &key, p) {
                let q = p + 12;
                let mut a = q;
                while a < s.len() && s[a].is_whitespace()
                    invariant
                        q <= a <= s.len(),
                        white_run(s@.skip(q as int)) == (a - q) + white_run(s@.skip(a as int)),
                    decreases s.len() - a,
                {
                    assert(s@.skip(a as int)[0] == s@[a as int]);
                    assert(s@.skip(a as int).drop_first() =~= s@.skip(a + 1));
                    a = a + 1;
                }
                assert(white_run(s@.skip(a as int)) == 0) by {
                    if a < s.len() {
                        assert(s@.skip(a as int)[0] == s@[a as int]);
                    }
                }
                if a > q && a < s.len() && s[a] == '"' {
                    let c = a + 1;
                    // The capture: one non-newline character, then up to the first quote.
                    if c < s.len() && s[c] != '\n' {
                        let mut b = c + 1;
                        let ghost t0 = s@.skip(c as int).drop_first();
                        assert(t0 =~= s@.skip(c + 1));
                        while b < s.len() && s[b] != '"' && s[b] != '\n'
                            invariant
                                c + 1 <= b <= s.len(),
                                quote_before_newline(s@.skip(c + 1)) == match quote_before_newline(s@.skip(b as int)) {
                                    Some(j) => Some((j + (b - c - 1)) as nat),
                                    None => None::<nat>,
                                },
                            decreases s.len() - b,
                        {
                            assert(s@.skip(b as int)[0] == s@[b as int]);
                            assert(s@.skip(b as int).drop_first() =~= s@.skip(b + 1));
                            b = b + 1;
                        }
                        if b < s.len() && s[b] == '"' {
                            assert(s@.skip(b as int)[0] == s@[b as int]);
                            assert(s@.skip(c as int)[0] == s@[c as int]);
                            let mut cap: Vec<char> = Vec::new();
                            let mut m = c;
                            while m < b
                                invariant
                                    c <= m <= b,
                                    b <= s.len(),
                                    cap@ == s@.subrange(c as int, m as int),
                                decreases b - m,
                            {
                                assert(s@.subrange(c as int, m + 1) =~= s@.subrange(c as int, m as int).push(s@[m as int]));
                                cap.push(s[m]);
                                m = m + 1;
                            }
                            return Some(string_of(&cap));
                        } else {
                            if b < s.len() {
                                assert(s@.skip(b as int)[0] == s@[b as int]);
                            }
                            assert(s@.skip(c as int)[0] == s@[c as int]);
                        }
                    } else {
                        if c < s.len() {
                            assert(s@.skip(c as int)[0] == s@[c as int]);
                        }
                    }
                }
            }
            p = p + 1;
        }
        None
    }
}


/// `appmanifest_{id}.acf`.
pub open spec fn manifest_file_of(app_id: Seq<char>) -> Seq<char> {
    "appmanifest_"@ + app_id + ".acf"@
}

/// A path separator on Windows.
pub open spec fn is_separator(c: char) -> bool {
    c == '\\' || c == '/'
}

/// The pieces of a path between its separators (empty pieces included).
pub open spec fn path_pieces(s: Seq<char>) -> Seq<Seq<char>>
    decreases s.len(),
{
    if s.len() == 0 {
        seq![Seq::empty()]
    } else {
        let p = path_pieces(s.drop_last());
        if is_separator(s.last()) {
            p.push(Seq::empty())
        } else {
            p.update(p.len() - 1, p.last().push(s.last()))
        }
    }
}

/// The components of a path: its pieces without empty ones (repeated and
/// trailing separators) and without `.` after the first piece.
pub open spec fn path_components(ps: Seq<Seq<char>>) -> Seq<Seq<char>>
    decreases ps.len(),
{
    if ps.len() == 0 {
        Seq::empty()
    } else {
        let r = path_components(ps.drop_last());
        let x = ps.last();
        if x.len() == 0 || (x == "."@ && ps.len() > 1) { r } else { r.push(x) }
    }
}

/// Whether a path starts at a root (a leading separator).
pub open spec fn rooted(s: Seq<char>) -> bool {
    s.len() > 0 && is_separator(s[0])
}

/// Two paths are the same path: both rooted or neither, with the same
/// components.
pub open spec fn same_path(a: Seq<char>, b: Seq<char>) -> bool {
    rooted(a) == rooted(b) && path_components(path_pieces(a)) == path_components(path_pieces(b))
}

fn path_key(s: &str) -> (r: (bool, Vec<String>))
    ensures
        r.0 == rooted(s@),
        strings_view(r.1@) == path_components(path_pieces(s@)),
{
    let cs = chars_of(s);
    let mut parts: Vec<String> = Vec::new();
    let mut cur: Vec<char> = Vec::new();
    let mut seen_sep = false;
    let mut i: usize = 0;
    proof {
        assert(cs@.take(0) =~= Seq::<char>::empty());
        assert(path_pieces(Seq::<char>::empty()) =~= seq![Seq::<char>::empty()]);
        assert(seq![Seq::<char>::empty()].drop_last() =~= Seq::<Seq<char>>::empty());
    }
    while i < cs.len()
        invariant
            i <= cs.len(),
            cs@ == s@,
            path_pieces(cs@.take(i as int)).len() >= 1,
            path_pieces(cs@.take(i as int)).last() == cur@,
            seen_sep == (path_pieces(cs@.take(i as int)).len() > 1),
            strings_view(parts@) == path_components(path_pieces(cs@.take(i as int)).drop_last()),
        decreases cs.len() - i,
    {
        let ghost pp = path_pieces(cs@.take(i as int));
        proof {
            assert(cs@.take(i as int + 1).drop_last() =~= cs@.take(i as int));
            assert(cs@.take(i as int + 1).last() == cs@[i as int]);
        }
        let c = cs[i];
        if c == '\\' || c == '/' {
            let ghost np = pp.push(Seq::empty());
            assert(np.drop_last() =~= pp);
            assert(pp =~= pp.drop_last().push(pp.last()));
            let ghost keep = !(cur@.len() == 0 || (cur@ == "."@ && pp.len() > 1));
            proof {
                reveal_strlit(".");
            }
            if cur.len() > 0 && !(cur.len() == 1 && cur[0] == '.' && seen_sep) {
                let t = string_of(&cur);
                proof {
                    crate::text::lemma_strings_view_push(parts@, t);
                    if cur@.len() == 1 && cur@[0] == '.' {
                        assert(cur@ =~= "."@);
                    }
                }
                parts.push(t);
            } else {
                proof {
                    if cur@.len() == 1 && cur@[0] == '.' {
                        assert(cur@ =~= "."@);
                    }
                }
            }
            cur = Vec::new();
            seen_sep = true;
            assert(cur@ =~= Seq::<char>::empty());
        } else {
            let ghost np = pp.update(pp.len() - 1, pp.last().push(c));
            assert(np.drop_last() =~= pp.drop_last());
            cur.push(c);
        }
        i = i + 1;
    }
    assert(cs@.take(cs.len() as int) =~= cs@);
    let ghost pp = path_pieces(cs@);
    assert(pp =~= pp.drop_last().push(pp.last()));
    proof {
        reveal_strlit(".");
    }
    if cur.len() > 0 && !(cur.len() == 1 && cur[0] == '.' && seen_sep) {
        let t = string_of(&cur);
        proof {
            crate::text::lemma_strings_view_push(parts@, t);
            if cur@.len() == 1 && cur@[0] == '.' {
                assert(cur@ =~= "."@);
            }
        }
        parts.push(t);
    } else {
        proof {
            if cur@.len() == 1 && cur@[0] == '.' {
                assert(cur@ =~= "."@);
            }
        }
    }
    let r0 = cs.len() > 0 && (cs[0] == '\\' || cs[0] == '/');
    (r0, parts)
}

/// Whether two texts name the same path, as Windows compares paths.
pub fn same_path_text(a: &str, b: &str) -> (r: bool)
    ensures
        r == same_path(a@, b@),
{
    let (ra, pa) = path_key(a);
    let (rb, pb) = path_key(b);
    if ra != rb || pa.len() != pb.len() {
        proof {
            if ra == rb {
                assert(strings_view(pa@).len() != strings_view(pb@).len());
            }
        }
        return false;
    }
    let mut i: usize = 0;
    while i < pa.len()
        invariant
            i <= pa.len(),
            pa.len() == pb.len(),
            ra == rooted(a@) && rb == rooted(b@) && ra == rb,
            strings_view(pa@) == path_components(path_pieces(a@)),
            strings_view(pb@) == path_components(path_pieces(b@)),
            forall|k: int| 0 <= k < i ==> pa@[k]@ == pb@[k]@,
        decreases pa.len() - i,
    {
        if !text_eq(&pa[i], &pb[i]) {
            assert(strings_view(pa@)[i as int] == pa@[i as int]@);
            assert(strings_view(pb@)[i as int] == pb@[i as int]@);
            assert(strings_view(pa@) != strings_view(pb@));
            return false;
        }
        i = i + 1;
    }
    assert(strings_view(pa@) =~= strings_view(pb@));
    true
}

/// The library folders: the Steam folder first, then every folder that
/// `libraryfolders.vdf` lists and that is not the Steam folder (compared as
/// paths).
pub open spec fn library_folder_list(steam_path: Seq<char>, listed: Seq<Seq<char>>) -> Seq<Seq<Seq<char>>>
    decreases listed.len(),
{
    if listed.len() == 0 {
        seq![seq![steam_path]]
    } else {
        let rest = library_folder_list(steam_path, listed.drop_last());
        if !same_path(listed.last(), steam_path) { rest.push(seq![listed.last()]) } else { rest }
    }
}

impl GamePathFinder {
    /// The library folders, given the parsed `libraryfolders.vdf` when it
    /// could be read.
    pub fn get_library_folders(steam_path: &str, parsed: Option<&VdfValue>) -> (r: Vec<PathText>)
        ensures
            paths_view(r@) == library_folder_list(steam_path@, match parsed {
                Some(p) => library_paths(p@),
                None => Seq::empty(),
            }),
    {
        let listed: Vec<String> = match parsed {
            Some(p) => Self::library_paths_in(p),
            None => Vec::new(),
        };
        let ghost lv = strings_view(listed@);
        let mut out: Vec<PathText> = Vec::new();
        out.push(PathText::new(steam_path));
        assert(paths_view(out@) =~= library_folder_list(steam_path@, lv.take(0)));
        let mut i: usize = 0;
        while i < listed.len()
            invariant
                i <= listed.len(),
                lv == strings_view(listed@),
                paths_view(out@) == library_folder_list(steam_path@, lv.take(i as int)),
            decreases listed.len() - i,
        {
            proof {
                assert(lv.take(i as int + 1).drop_last() =~= lv.take(i as int));
                assert(lv[i as int] == listed@[i as int]@);
            }
            if !same_path_text(&listed[i], steam_path) {
                let p = PathText::new(&listed[i]);
                let ghost before = paths_view(out@);
                out.push(p);
                assert(paths_view(out@) =~= before.push(seq![lv[i as int]]));
            }
            i = i + 1;
        }
        assert(lv.take(listed.len() as int) =~= lv);
        out
    }

    /// Where each library folder would hold the app's manifest:
    /// `{library}/steamapps/appmanifest_{id}.acf`.
    pub fn manifest_candidates(library_folders: &Vec<PathText>, app_id: &str) -> (r: Vec<PathText>)
        ensures
            r.len() == library_folders.len(),
            forall|i: int| 0 <= i < r.len() ==> #[trigger] r@[i]@ == library_folders@[i]@.push("steamapps"@).push(manifest_file_of(app_id@)),
    {
        let name = crate::text::concat3("appmanifest_", app_id, ".acf");
        let mut r: Vec<PathText> = Vec::new();
        let mut i: usize = 0;
        while i < library_folders.len()
            invariant
                i <= library_folders.len(),
                r.len() == i,
                name@ == manifest_file_of(app_id@),
                forall|k: int| 0 <= k < i ==> #[trigger] r@[k]@ == library_folders@[k]@.push("steamapps"@).push(manifest_file_of(app_id@)),
            decreases library_folders.len() - i,
        {
            r.push(library_folders[i].join("steamapps").join(&name));
            i = i + 1;
        }
        r
    }

    /// The app's manifest in the first library folder that has one;
    /// `present[i]` tells whether the `i`-th of `manifest_candidates` exists.
    pub fn find_manifest_path(library_folders: &Vec<PathText>, app_id: &str, present: &Vec<bool>) -> (r: Option<PathText>)
        requires
            present.len() == library_folders.len(),
        ensures
            match r {
                Some(p) => exists|i: int| {
                    &&& 0 <= i < present.len()
                    &&& #[trigger] present@[i]
                    &&& p@ == library_folders@[i]@.push("steamapps"@).push(manifest_file_of(app_id@))
                    &&& forall|j: int| 0 <= j < i ==> !present@[j]
                },
                None => forall|i: int| 0 <= i < present.len() ==> !#[trigger] present@[i],
            },
    {
        let mut i: usize = 0;
        while i < library_folders.len()
            invariant
                i <= library_folders.len(),
                present.len() == library_folders.len(),
                forall|j: int| 0 <= j < i ==> !#[trigger] present@[j],
            decreases library_folders.len() - i,
        {
            if present[i] {
                let name = crate::text::concat3("appmanifest_", app_id, ".acf");
                assert(present@[i as int]);
                return Some(library_folders[i].join("steamapps").join(&name));
            }
            i = i + 1;
        }
        None
    }

    /// Where an installed game lives: `{library}/steamapps/common/{installdir}`.
    pub fn game_dir(library: &PathText, install_dir: &str) -> (r: PathText)
        ensures
            r@ == library@.push("steamapps"@).push("common"@).push(install_dir@),
    {
        library.join("steamapps").join("common").join(install_dir)
    }
}

pub open spec fn paths_view(ps: Seq<PathText>) -> Seq<Seq<Seq<char>>> {
    ps.map_values(|p: PathText| p@)
}

} // verus!
