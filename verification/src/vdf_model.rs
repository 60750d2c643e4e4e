//! The mathematical model of VDF ("Valve Data Format") documents: the tree that a
//! document denotes, how text is cut into tokens, how tokens form the tree, and how
//! a tree is written back as text.
use vstd::prelude::*;
use crate::text::{is_white_space, ascii_lower};

verus! {

/// A VDF value: a string, or an ordered list of keyed children.
pub enum VdfNode {
    Str(Seq<char>),
    Obj(Seq<(Seq<char>, VdfNode)>),
}

// ---------------------------------------------------------------------------
// Keys and lookups
// ---------------------------------------------------------------------------

/// Keys are compared without regard to ASCII case.
pub open spec fn key_eq(a: Seq<char>, b: Seq<char>) -> bool {
    ascii_lower(a) == ascii_lower(b)
}

/// The position of the first entry whose key matches `key`, or -1.
pub open spec fn key_index(es: Seq<(Seq<char>, VdfNode)>, key: Seq<char>) -> int
    decreases es.len(),
{
    if es.len() == 0 {
        -1
    } else if key_eq(es[0].0, key) {
        0
    } else {
        let r = key_index(es.drop_first(), key);
        if r < 0 {
            -1
        } else {
            r + 1
        }
    }
}

pub proof fn lemma_key_index(es: Seq<(Seq<char>, VdfNode)>, key: Seq<char>)
    ensures
        -1 <= key_index(es, key) < es.len(),
        key_index(es, key) >= 0 ==> key_eq(es[key_index(es, key)].0, key),
        forall|j: int| 0 <= j < es.len() && (key_index(es, key) < 0 || j < key_index(es, key))
            ==> !key_eq(#[trigger] es[j].0, key),
    decreases es.len(),
{
    if es.len() > 0 && !key_eq(es[0].0, key) {
        lemma_key_index(es.drop_first(), key);
        assert forall|j: int| 0 <= j < es.len() && (key_index(es, key) < 0 || j < key_index(es, key))
            implies !key_eq(#[trigger] es[j].0, key) by {
            if j > 0 {
                assert(es[j] == es.drop_first()[j - 1]);
            }
        }
    }
}

/// The child stored under `key` (first match), if `v` is an object that has one.
pub open spec fn node_get(v: VdfNode, key: Seq<char>) -> Option<VdfNode> {
    match v {
        VdfNode::Str(_) => None,
        VdfNode::Obj(es) => if key_index(es, key) >= 0 {
            Some(es[key_index(es, key)].1)
        } else {
            None
        },
    }
}

pub open spec fn node_has_key(v: VdfNode, key: Seq<char>) -> bool {
    node_get(v, key) is Some
}

/// Stores `val` under `key`: replaces the value of the first matching entry (its
/// key text is kept) or appends a new entry; a string node is left as it is.
pub open spec fn node_insert(v: VdfNode, key: Seq<char>, val: VdfNode) -> VdfNode {
    match v {
        VdfNode::Str(_) => v,
        VdfNode::Obj(es) => {
            let i = key_index(es, key);
            if i >= 0 {
                VdfNode::Obj(es.update(i, (es[i].0, val)))
            } else {
                VdfNode::Obj(es.push((key, val)))
            }
        },
    }
}

pub proof fn lemma_key_index_push(es: Seq<(Seq<char>, VdfNode)>, e: (Seq<char>, VdfNode), key: Seq<char>)
    requires
        key_index(es, key) < 0,
        key_eq(e.0, key),
    ensures
        key_index(es.push(e), key) == es.len(),
    decreases es.len(),
{
    if es.len() == 0 {
        assert(es.push(e)[0] == e);
    } else {
        assert(es.push(e)[0] == es[0]);
        assert(es.push(e).drop_first() =~= es.drop_first().push(e));
        lemma_key_index_push(es.drop_first(), e, key);
    }
}

proof fn lemma_key_index_unique(es: Seq<(Seq<char>, VdfNode)>, key: Seq<char>, j: int)
    requires
        -1 <= j < es.len(),
        j >= 0 ==> key_eq(es[j].0, key),
        forall|k: int| 0 <= k < es.len() && (j < 0 || k < j) ==> !key_eq(#[trigger] es[k].0, key),
    ensures
        key_index(es, key) == j,
{
    lemma_key_index(es, key);
    let r = key_index(es, key);
    if r >= 0 && j >= 0 && r < j {
        assert(!key_eq(es[r].0, key));
    }
    if r >= 0 && j < 0 {
        assert(!key_eq(es[r].0, key));
    }
    if j >= 0 && (r < 0 || j < r) {
        assert(!key_eq(es[j].0, key));
    }
}

/// What is stored under a key of an object is what a lookup of that key gives.
pub proof fn law_insert_then_get(v: VdfNode, key: Seq<char>, val: VdfNode)
    requires
        v is Obj,
    ensures
        node_get(node_insert(v, key, val), key) == Some(val),
{
    let es = v->Obj_0;
    lemma_key_index(es, key);
    let i = key_index(es, key);
    if i >= 0 {
        let es2 = es.update(i, (es[i].0, val));
        assert forall|k: int| 0 <= k < es2.len() && (i < 0 || k < i) implies !key_eq(#[trigger] es2[k].0, key) by {
            assert(es2[k] == es[k]);
        }
        lemma_key_index_unique(es2, key, i);
    } else {
        let es2 = es.push((key, val));
        assert forall|k: int| 0 <= k < es2.len() && (es.len() < 0 || k < es.len()) implies !key_eq(#[trigger] es2[k].0, key) by {
            assert(es2[k] == es[k]);
        }
        lemma_key_index_unique(es2, key, es.len() as int);
    }
}

/// Storing under one key leaves what other keys (other even ignoring ASCII
/// case) give unchanged.
pub proof fn law_insert_keeps_others(v: VdfNode, key: Seq<char>, val: VdfNode, other: Seq<char>)
    requires
        !key_eq(key, other),
    ensures
        node_get(node_insert(v, key, val), other) == node_get(v, other),
{
    match v {
        VdfNode::Obj(es) => {
            lemma_key_index(es, key);
            lemma_key_index(es, other);
            let i = key_index(es, key);
            let j = key_index(es, other);
            if i >= 0 {
                let es2 = es.update(i, (es[i].0, val));
                assert forall|k: int| 0 <= k < es2.len() && (j < 0 || k < j) implies !key_eq(#[trigger] es2[k].0, other) by {
                    assert(es2[k].0 == es[k].0);
                }
                if j >= 0 {
                    assert(es2[j].0 == es[j].0);
                }
                lemma_key_index_unique(es2, other, j);
                if j >= 0 && j == i {
                    assert(key_eq(es[i].0, key) && key_eq(es[i].0, other));
                    assert(false);
                }
            } else {
                let es2 = es.push((key, val));
                assert forall|k: int| 0 <= k < es2.len() && (j < 0 || k < j) implies !key_eq(#[trigger] es2[k].0, other) by {
                    if k < es.len() {
                        assert(es2[k] == es[k]);
                    }
                }
                if j >= 0 {
                    assert(es2[j] == es[j]);
                }
                lemma_key_index_unique(es2, other, j);
            }
        },
        VdfNode::Str(_) => {},
    }
}

/// After a walk that creates missing objects has stored a node at the end of a
/// path, walking the same path again succeeds and finds that node.
pub proof fn law_path_replace_then_target(v: VdfNode, path: Seq<Seq<char>>, n: VdfNode)
    requires
        path_ok(v, path),
    ensures
        path_ok(path_replace(v, path, n), path),
        path_target(path_replace(v, path, n), path) == n,
    decreases path.len(),
{
    if path.len() > 0 {
        let es = v->Obj_0;
        lemma_key_index(es, path[0]);
        let i = key_index(es, path[0]);
        if i >= 0 {
            let inner = path_replace(es[i].1, path.drop_first(), n);
            law_path_replace_then_target(es[i].1, path.drop_first(), n);
            let es2 = es.update(i, (es[i].0, inner));
            assert forall|k: int| 0 <= k < es2.len() && (i < 0 || k < i) implies !key_eq(#[trigger] es2[k].0, path[0]) by {
                assert(es2[k] == es[k]);
            }
            lemma_key_index_unique(es2, path[0], i);
        } else {
            let empty = VdfNode::Obj(Seq::empty());
            lemma_empty_path_ok(path.drop_first());
            law_path_replace_then_target(empty, path.drop_first(), n);
            let inner = path_replace(empty, path.drop_first(), n);
            let es2 = es.push((path[0], inner));
            assert forall|k: int| 0 <= k < es2.len() && (es.len() < 0 || k < es.len()) implies !key_eq(#[trigger] es2[k].0, path[0]) by {
                assert(es2[k] == es[k]);
            }
            lemma_key_index_unique(es2, path[0], es.len() as int);
        }
    }
}

proof fn lemma_empty_path_ok(path: Seq<Seq<char>>)
    ensures
        path_ok(VdfNode::Obj(Seq::empty()), path),
{
    if path.len() > 0 {
        assert(key_index(Seq::<(Seq<char>, VdfNode)>::empty(), path[0]) == -1);
    }
}

/// Whether walking `path` from `v`, creating missing objects on the way, stays
/// clear of string values.
pub open spec fn path_ok(v: VdfNode, path: Seq<Seq<char>>) -> bool
    decreases path.len(),
{
    if path.len() == 0 {
        true
    } else {
        match v {
            VdfNode::Str(_) => false,
            VdfNode::Obj(es) => {
                let i = key_index(es, path[0]);
                if i >= 0 {
                    path_ok(es[i].1, path.drop_first())
                } else {
                    true
                }
            },
        }
    }
}

/// The node found at the end of `path` once missing objects are created.
pub open spec fn path_target(v: VdfNode, path: Seq<Seq<char>>) -> VdfNode
    decreases path.len(),
{
    if path.len() == 0 {
        v
    } else {
        match v {
            VdfNode::Str(_) => v,
            VdfNode::Obj(es) => {
                let i = key_index(es, path[0]);
                if i >= 0 {
                    path_target(es[i].1, path.drop_first())
                } else {
                    path_target(VdfNode::Obj(Seq::empty()), path.drop_first())
                }
            },
        }
    }
}

/// The tree once missing objects along `path` are created and the node at its end
/// is replaced by `new`.
pub open spec fn path_replace(v: VdfNode, path: Seq<Seq<char>>, new: VdfNode) -> VdfNode
    decreases path.len(),
{
    if path.len() == 0 {
        new
    } else {
        match v {
            VdfNode::Str(_) => v,
            VdfNode::Obj(es) => {
                let i = key_index(es, path[0]);
                if i >= 0 {
                    VdfNode::Obj(es.update(i, (es[i].0, path_replace(es[i].1, path.drop_first(), new))))
                } else {
                    VdfNode::Obj(es.push((path[0], path_replace(VdfNode::Obj(Seq::empty()), path.drop_first(), new))))
                }
            },
        }
    }
}

// ---------------------------------------------------------------------------
// Tokens
// ---------------------------------------------------------------------------

/// Characters that end an unquoted token.
pub open spec fn is_delim(c: char) -> bool {
    is_white_space(c) || c == '{' || c == '}' || c == '"'
}

/// Reads the body of a quoted string that starts right after the opening quote.
/// A backslash takes the next character literally. Returns the contents and what
/// follows the closing quote (nothing, if the quote never closes).
pub open spec fn read_quoted(s: Seq<char>) -> (Seq<char>, Seq<char>)
    decreases s.len(),
{
    if s.len() == 0 {
        (Seq::empty(), Seq::empty())
    } else if s[0] == '"' {
        (Seq::empty(), s.drop_first())
    } else if s[0] == '\\' {
        if s.len() == 1 {
            (Seq::empty(), Seq::empty())
        } else {
            let r = read_quoted(s.skip(2));
            (seq![s[1]] + r.0, r.1)
        }
    } else {
        let r = read_quoted(s.drop_first());
        (seq![s[0]] + r.0, r.1)
    }
}

/// How many leading characters are not delimiters.
pub open spec fn bare_run(s: Seq<char>) -> nat
    decreases s.len(),
{
    if s.len() == 0 || is_delim(s[0]) {
        0
    } else {
        1 + bare_run(s.drop_first())
    }
}

/// The token sequence of a text: braces are tokens of their own, quoted strings
/// yield their contents, other runs of non-delimiters are tokens, whitespace
/// separates.
pub open spec fn tokenize(s: Seq<char>) -> Seq<Seq<char>>
    decreases s.len(),
{
    if s.len() == 0 {
        Seq::empty()
    } else if is_white_space(s[0]) {
        tokenize(s.drop_first())
    } else if s[0] == '{' || s[0] == '}' {
        seq![seq![s[0]]] + tokenize(s.drop_first())
    } else if s[0] == '"' {
        let q = read_quoted(s.drop_first());
        if q.1.len() < s.len() {
            seq![q.0] + tokenize(q.1)
        } else {
            Seq::empty()
        }
    } else {
        let n = 1 + bare_run(s.drop_first());
        if n <= s.len() {
            seq![s.take(n as int)] + tokenize(s.skip(n as int))
        } else {
            Seq::empty()
        }
    }
}

pub proof fn lemma_read_quoted_shorter(s: Seq<char>)
    ensures
        read_quoted(s).1.len() <= s.len(),
        s.len() > 0 ==> read_quoted(s).1.len() < s.len(),
        read_quoted(s).1 == s.skip(s.len() - read_quoted(s).1.len()),
    decreases s.len(),
{
    if s.len() == 0 {
        assert(s.skip(0) =~= s);
    } else if s[0] == '"' {
        assert(s.drop_first() =~= s.skip(1));
    } else if s[0] == '\\' {
        if s.len() == 1 {
            assert(s.skip(1) =~= Seq::<char>::empty());
        } else {
            lemma_read_quoted_shorter(s.skip(2));
            let r = read_quoted(s.skip(2));
            assert(s.skip(2).skip(s.skip(2).len() - r.1.len()) =~= s.skip(s.len() - r.1.len()));
        }
    } else {
        lemma_read_quoted_shorter(s.drop_first());
        let r = read_quoted(s.drop_first());
        assert(s.drop_first().skip(s.drop_first().len() - r.1.len()) =~= s.skip(s.len() - r.1.len()));
    }
}

pub proof fn lemma_bare_run_bound(s: Seq<char>)
    ensures
        bare_run(s) <= s.len(),
        forall|i: int| 0 <= i < bare_run(s) ==> !is_delim(#[trigger] s[i]),
        bare_run(s) < s.len() ==> is_delim(s[bare_run(s) as int]),
    decreases s.len(),
{
    if s.len() != 0 && !is_delim(s[0]) {
        lemma_bare_run_bound(s.drop_first());
        assert forall|i: int| 0 <= i < bare_run(s) implies !is_delim(#[trigger] s[i]) by {
            if i > 0 {
                assert(s[i] == s.drop_first()[i - 1]);
            }
        }
    }
}

// ---------------------------------------------------------------------------
// From tokens to a tree
// ---------------------------------------------------------------------------

pub open spec fn open_brace() -> Seq<char> {
    seq!['{']
}

pub open spec fn close_brace() -> Seq<char> {
    seq!['}']
}

/// Reads keyed entries from a token sequence until a closing brace (which is
/// consumed) or the end. A key followed by `{` opens a nested object; a key
/// followed by any other token takes it as its string value; a key with nothing
/// after it is dropped. Returns the entries and the tokens left over.
pub open spec fn parse_entries(toks: Seq<Seq<char>>) -> (Seq<(Seq<char>, VdfNode)>, Seq<Seq<char>>)
    decreases toks.len(),
{
    if toks.len() == 0 {
        (Seq::empty(), Seq::empty())
    } else if toks[0] == close_brace() {
        (Seq::empty(), toks.drop_first())
    } else if toks.len() == 1 {
        (Seq::empty(), Seq::empty())
    } else if toks[1] == open_brace() {
        let inner = parse_entries(toks.skip(2));
        if inner.1.len() < toks.len() {
            let more = parse_entries(inner.1);
            (seq![(toks[0], VdfNode::Obj(inner.0))] + more.0, more.1)
        } else {
            (Seq::empty(), Seq::empty())
        }
    } else {
        let more = parse_entries(toks.skip(2));
        (seq![(toks[0], VdfNode::Str(toks[1]))] + more.0, more.1)
    }
}

pub proof fn lemma_parse_entries_rest(toks: Seq<Seq<char>>)
    ensures
        parse_entries(toks).1.len() <= toks.len(),
        parse_entries(toks).1 == toks.skip(toks.len() - parse_entries(toks).1.len()),
    decreases toks.len(),
{
    if toks.len() == 0 {
        assert(toks.skip(0) =~= toks);
    } else if toks[0] == close_brace() {
        assert(toks.drop_first() =~= toks.skip(1));
    } else if toks.len() == 1 {
        assert(toks.skip(1) =~= Seq::<Seq<char>>::empty());
    } else if toks[1] == open_brace() {
        lemma_parse_entries_rest(toks.skip(2));
        let inner = parse_entries(toks.skip(2));
        assert(toks.skip(2).skip(toks.skip(2).len() - inner.1.len()) =~= toks.skip(toks.len() - inner.1.len()));
        lemma_parse_entries_rest(inner.1);
        let more = parse_entries(inner.1);
        assert(inner.1.skip(inner.1.len() - more.1.len()) =~= toks.skip(toks.len() - more.1.len()));
    } else {
        lemma_parse_entries_rest(toks.skip(2));
        let more = parse_entries(toks.skip(2));
        assert(toks.skip(2).skip(toks.skip(2).len() - more.1.len()) =~= toks.skip(toks.len() - more.1.len()));
    }
}

/// The tree that a VDF text denotes: an object of the entries read from its tokens.
pub open spec fn parse_document(s: Seq<char>) -> VdfNode {
    VdfNode::Obj(parse_entries(tokenize(s)).0)
}

// ---------------------------------------------------------------------------
// From a tree to text
// ---------------------------------------------------------------------------

pub open spec fn tabs(n: nat) -> Seq<char> {
    Seq::new(n, |i: int| '\t')
}

pub open spec fn quote(s: Seq<char>) -> Seq<char> {
    seq!['"'] + s + seq!['"']
}

/// One entry at nesting depth `d`: a string entry on one line, an object entry
/// as its key line, an opening brace line, its children one level deeper, and a
/// closing brace line.
pub open spec fn write_entry(k: Seq<char>, v: VdfNode, d: nat) -> Seq<char>
    decreases v,
{
    match v {
        VdfNode::Str(s) => tabs(d) + quote(k) + seq!['\t', '\t'] + quote(s) + seq!['\n'],
        VdfNode::Obj(es) => tabs(d) + quote(k) + seq!['\n'] + tabs(d) + seq!['{', '\n']
            + write_entries(es, d + 1) + tabs(d) + seq!['}', '\n'],
    }
}

pub open spec fn write_entries(es: Seq<(Seq<char>, VdfNode)>, d: nat) -> Seq<char>
    decreases es,
{
    if es.len() == 0 {
        Seq::empty()
    } else {
        write_entry(es[0].0, es[0].1, d) + write_entries(es.drop_first(), d)
    }
}

pub proof fn lemma_write_entries_append(a: Seq<(Seq<char>, VdfNode)>, b: Seq<(Seq<char>, VdfNode)>, d: nat)
    ensures
        write_entries(a + b, d) == write_entries(a, d) + write_entries(b, d),
    decreases a.len(),
{
    if a.len() == 0 {
        assert(a + b =~= b);
        assert(write_entries(a, d) + write_entries(b, d) =~= write_entries(b, d));
    } else {
        assert((a + b)[0] == a[0]);
        assert((a + b).drop_first() =~= a.drop_first() + b);
        lemma_write_entries_append(a.drop_first(), b, d);
        assert(write_entries(a + b, d) =~= write_entries(a, d) + write_entries(b, d));
    }
}

pub proof fn lemma_write_entries_single(e: (Seq<char>, VdfNode), d: nat)
    ensures
        write_entries(seq![e], d) == write_entry(e.0, e.1, d),
{
    assert(seq![e].drop_first() =~= Seq::<(Seq<char>, VdfNode)>::empty());
    assert(write_entries(Seq::<(Seq<char>, VdfNode)>::empty(), d) == Seq::<char>::empty());
    assert(write_entry(e.0, e.1, d) + Seq::<char>::empty() =~= write_entry(e.0, e.1, d));
}

/// The text of a document: the entries of an object root at depth 0; nothing for
/// a string root.
pub open spec fn write_document(v: VdfNode) -> Seq<char> {
    match v {
        VdfNode::Str(_) => Seq::empty(),
        VdfNode::Obj(es) => write_entries(es, 0),
    }
}


// ---------------------------------------------------------------------------
// Writing then reading gives the tree back
// ---------------------------------------------------------------------------

/// Text that the writer can quote as it is: no quote mark and no backslash.
pub open spec fn plain_text(s: Seq<char>) -> bool {
    forall|i: int| 0 <= i < s.len() ==> #[trigger] s[i] != '"' && s[i] != '\\'
}

/// Entries whose keys and strings are plain, no key is a lone `}` and no string
/// value is a lone `{` (those two would read back as braces).
pub open spec fn plain_entries(es: Seq<(Seq<char>, VdfNode)>) -> bool
    decreases es,
{
    if es.len() == 0 {
        true
    } else {
        &&& plain_text(es[0].0)
        &&& es[0].0 != close_brace()
        &&& plain_node(es[0].1)
        &&& plain_entries(es.drop_first())
    }
}

pub open spec fn plain_node(v: VdfNode) -> bool
    decreases v,
{
    match v {
        VdfNode::Str(s) => plain_text(s) && s != open_brace(),
        VdfNode::Obj(es) => plain_entries(es),
    }
}

/// The tokens that the text of one entry consists of.
pub open spec fn entry_tokens(k: Seq<char>, v: VdfNode) -> Seq<Seq<char>>
    decreases v,
{
    match v {
        VdfNode::Str(s) => seq![k, s],
        VdfNode::Obj(es) => seq![k, open_brace()] + entries_tokens(es) + seq![close_brace()],
    }
}

pub open spec fn entries_tokens(es: Seq<(Seq<char>, VdfNode)>) -> Seq<Seq<char>>
    decreases es,
{
    if es.len() == 0 {
        Seq::empty()
    } else {
        entry_tokens(es[0].0, es[0].1) + entries_tokens(es.drop_first())
    }
}

pub open spec fn all_white(w: Seq<char>) -> bool {
    forall|i: int| 0 <= i < w.len() ==> is_white_space(#[trigger] w[i])
}

proof fn lemma_tokenize_white_prefix(w: Seq<char>, x: Seq<char>)
    requires
        all_white(w),
    ensures
        tokenize(w + x) == tokenize(x),
    decreases w.len(),
{
    if w.len() > 0 {
        let s = w + x;
        assert(s[0] == w[0]);
        assert(is_white_space(w[0]));
        assert(s.drop_first() =~= w.drop_first() + x);
        assert(all_white(w.drop_first())) by {
            assert forall|i: int| 0 <= i < w.drop_first().len() implies is_white_space(#[trigger] w.drop_first()[i]) by {
                assert(w.drop_first()[i] == w[i + 1]);
            }
        }
        lemma_tokenize_white_prefix(w.drop_first(), x);
    } else {
        assert(w + x =~= x);
    }
}

proof fn lemma_read_quoted_plain(k: Seq<char>, y: Seq<char>)
    requires
        plain_text(k),
    ensures
        read_quoted(k + seq!['"'] + y) == (k, y),
    decreases k.len(),
{
    let s = k + seq!['"'] + y;
    if k.len() == 0 {
        assert(s[0] == '"');
        assert(s.drop_first() =~= y);
        assert(k =~= Seq::<char>::empty());
    } else {
        assert(s[0] == k[0]);
        assert(k[0] != '"' && k[0] != '\\');
        assert(s.drop_first() =~= k.drop_first() + seq!['"'] + y);
        assert(plain_text(k.drop_first())) by {
            assert forall|i: int| 0 <= i < k.drop_first().len() implies #[trigger] k.drop_first()[i] != '"'
                && k.drop_first()[i] != '\\' by {
                assert(k.drop_first()[i] == k[i + 1]);
            }
        }
        lemma_read_quoted_plain(k.drop_first(), y);
        assert(seq![k[0]] + k.drop_first() =~= k);
    }
}

proof fn lemma_tokenize_quote(k: Seq<char>, y: Seq<char>)
    requires
        plain_text(k),
    ensures
        tokenize(quote(k) + y) == seq![k] + tokenize(y),
{
    let s = quote(k) + y;
    assert(s[0] == '"');
    assert(s.drop_first() =~= k + seq!['"'] + y);
    lemma_read_quoted_plain(k, y);
}

proof fn lemma_tokenize_brace(c: char, y: Seq<char>)
    requires
        c == '{' || c == '}',
    ensures
        tokenize(seq![c] + y) == seq![seq![c]] + tokenize(y),
{
    let s = seq![c] + y;
    assert(s[0] == c);
    assert(s.drop_first() =~= y);
}

proof fn lemma_tokenize_entry(k: Seq<char>, v: VdfNode, d: nat, z: Seq<char>)
    requires
        plain_text(k),
        plain_node(v),
    ensures
        tokenize(write_entry(k, v, d) + z) == entry_tokens(k, v) + tokenize(z),
    decreases v,
{
    assert(all_white(tabs(d)));
    match v {
        VdfNode::Str(s) => {
            let b = seq!['\n'] + z;
            let a = seq!['\t', '\t'] + (quote(s) + b);
            assert(write_entry(k, v, d) + z =~= tabs(d) + (quote(k) + a));
            lemma_tokenize_white_prefix(tabs(d), quote(k) + a);
            lemma_tokenize_quote(k, a);
            assert(all_white(seq!['\t', '\t']));
            lemma_tokenize_white_prefix(seq!['\t', '\t'], quote(s) + b);
            lemma_tokenize_quote(s, b);
            assert(all_white(seq!['\n']));
            lemma_tokenize_white_prefix(seq!['\n'], z);
            assert(seq![k] + (seq![s] + tokenize(z)) =~= seq![k, s] + tokenize(z));
        },
        VdfNode::Obj(es) => {
            let tail = tabs(d) + (seq!['}'] + (seq!['\n'] + z));
            let inner = write_entries(es, d + 1) + tail;
            let a = seq!['\n'] + (tabs(d) + (seq!['{'] + (seq!['\n'] + inner)));
            assert(write_entry(k, v, d) + z =~= tabs(d) + (quote(k) + a));
            lemma_tokenize_white_prefix(tabs(d), quote(k) + a);
            lemma_tokenize_quote(k, a);
            assert(all_white(seq!['\n']));
            assert(all_white(seq!['\n'] + tabs(d)));
            assert(a =~= (seq!['\n'] + tabs(d)) + (seq!['{'] + (seq!['\n'] + inner)));
            lemma_tokenize_white_prefix(seq!['\n'] + tabs(d), seq!['{'] + (seq!['\n'] + inner));
            lemma_tokenize_brace('{', seq!['\n'] + inner);
            lemma_tokenize_white_prefix(seq!['\n'], inner);
            lemma_tokenize_entries(es, d + 1, tail);
            lemma_tokenize_white_prefix(tabs(d), seq!['}'] + (seq!['\n'] + z));
            lemma_tokenize_brace('}', seq!['\n'] + z);
            lemma_tokenize_white_prefix(seq!['\n'], z);
            assert(seq![k] + (seq![seq!['{']] + (entries_tokens(es) + (seq![seq!['}']] + tokenize(z))))
                =~= entry_tokens(k, v) + tokenize(z));
        },
    }
}

proof fn lemma_tokenize_entries(es: Seq<(Seq<char>, VdfNode)>, d: nat, z: Seq<char>)
    requires
        plain_entries(es),
    ensures
        tokenize(write_entries(es, d) + z) == entries_tokens(es) + tokenize(z),
    decreases es,
{
    if es.len() == 0 {
        assert(write_entries(es, d) + z =~= z);
        assert(entries_tokens(es) + tokenize(z) =~= tokenize(z));
    } else {
        let rest = write_entries(es.drop_first(), d) + z;
        assert(write_entries(es, d) + z =~= write_entry(es[0].0, es[0].1, d) + rest);
        lemma_tokenize_entry(es[0].0, es[0].1, d, rest);
        lemma_tokenize_entries(es.drop_first(), d, z);
        assert(entry_tokens(es[0].0, es[0].1) + (entries_tokens(es.drop_first()) + tokenize(z))
            =~= entries_tokens(es) + tokenize(z));
    }
}

proof fn lemma_parse_entry(k: Seq<char>, v: VdfNode, t: Seq<Seq<char>>)
    requires
        k != close_brace(),
        plain_node(v),
    ensures
        parse_entries(entry_tokens(k, v) + t) == (seq![(k, v)] + parse_entries(t).0, parse_entries(t).1),
    decreases v,
{
    let toks = entry_tokens(k, v) + t;
    match v {
        VdfNode::Str(s) => {
            assert(toks[0] == k);
            assert(toks[1] == s);
            assert(toks.skip(2) =~= t);
        },
        VdfNode::Obj(es) => {
            assert(toks[0] == k);
            assert(toks[1] == open_brace());
            let t2 = seq![close_brace()] + t;
            assert(toks.skip(2) =~= entries_tokens(es) + t2);
            lemma_parse_entries(es, t2);
            assert(t2[0] == close_brace());
            assert(t2.drop_first() =~= t);
            assert(es + Seq::<(Seq<char>, VdfNode)>::empty() =~= es);
        },
    }
}

proof fn lemma_parse_entries(es: Seq<(Seq<char>, VdfNode)>, t: Seq<Seq<char>>)
    requires
        plain_entries(es),
    ensures
        parse_entries(entries_tokens(es) + t) == (es + parse_entries(t).0, parse_entries(t).1),
    decreases es,
{
    if es.len() == 0 {
        assert(entries_tokens(es) + t =~= t);
        assert(es + parse_entries(t).0 =~= parse_entries(t).0);
    } else {
        let t1 = entries_tokens(es.drop_first()) + t;
        assert(entries_tokens(es) + t =~= entry_tokens(es[0].0, es[0].1) + t1);
        lemma_parse_entry(es[0].0, es[0].1, t1);
        lemma_parse_entries(es.drop_first(), t);
        assert(seq![(es[0].0, es[0].1)] + (es.drop_first() + parse_entries(t).0) =~= es + parse_entries(t).0);
    }
}

/// Reading the text that the writer produces for an object of plain entries gives
/// that object back.
pub proof fn law_write_then_parse(es: Seq<(Seq<char>, VdfNode)>)
    requires
        plain_entries(es),
    ensures
        parse_document(write_document(VdfNode::Obj(es))) == VdfNode::Obj(es),
{
    let text = write_entries(es, 0);
    assert(text + Seq::<char>::empty() =~= text);
    lemma_tokenize_entries(es, 0, Seq::empty());
    let toks = entries_tokens(es);
    assert(toks + tokenize(Seq::<char>::empty()) =~= toks);
    assert(toks + Seq::<Seq<char>>::empty() =~= toks);
    lemma_parse_entries(es, Seq::empty());
    assert(es + Seq::<(Seq<char>, VdfNode)>::empty() =~= es);
}

} // verus!
