//! Text-level helpers shared by the two VDF trees: cutting text into tokens and
//! writing quoted strings.
use vstd::prelude::*;
use crate::text::chars_of;
use crate::vdf_model::{is_delim, read_quoted, bare_run, tokenize, lemma_read_quoted_shorter, lemma_bare_run_bound,
    quote};

verus! {

/// The texts of a list of character vectors.
pub open spec fn token_views(toks: Seq<Vec<char>>) -> Seq<Seq<char>> {
    toks.map_values(|t: Vec<char>| t@)
}

pub proof fn lemma_token_views_push(toks: Seq<Vec<char>>, t: Vec<char>, rest: Seq<Seq<char>>)
    ensures
        token_views(toks.push(t)) + rest == token_views(toks) + (seq![t@] + rest),
{
    assert(token_views(toks.push(t)) =~= token_views(toks).push(t@));
    assert(token_views(toks).push(t@) + rest =~= token_views(toks) + (seq![t@] + rest));
}

pub fn is_delim_char(c: char) -> (r: bool)
    ensures
        r == is_delim(c),
{
    c.is_whitespace() || c == '{' || c == '}' || c == '"'
}

/// Cuts a text into VDF tokens.
pub fn tokenize_chars(s: &Vec<char>) -> (toks: Vec<Vec<char>>)
    ensures
        token_views(toks@) == tokenize(s@),
{
    let mut toks: Vec<Vec<char>> = Vec::new();
    let mut i: usize = 0;
    assert(s@.skip(0) =~= s@);
    assert(token_views(toks@) + tokenize(s@) =~= tokenize(s@));
    while i < s.len()
        invariant
            i <= s.len(),
            token_views(toks@) + tokenize(s@.skip(i as int)) == tokenize(s@),
        decreases s.len() - i,
    {
        let c = s[i];
        let ghost cur = s@.skip(i as int);
        assert(cur[0] == c);
        assert(cur.drop_first() =~= s@.skip(i + 1));
        if c.is_whitespace() {
            i = i + 1;
        } else if c == '{' || c == '}' {
            let t: Vec<char> = vec![c];
            assert(t@ =~= seq![c]);
            proof { lemma_token_views_push(toks@, t, tokenize(s@.skip(i + 1))); }
            toks.push(t);
            i = i + 1;
        } else if c == '"' {
            let ghost q = read_quoted(s@.skip(i + 1));
            let mut t: Vec<char> = Vec::new();
            let mut j: usize = i + 1;
            let mut closed = false;
            assert(t@ + q.0 =~= q.0);
            while j < s.len() && !closed
                invariant
                    i + 1 <= j <= s.len(),
                    !closed ==> t@ + read_quoted(s@.skip(j as int)).0 == q.0,
                    !closed ==> read_quoted(s@.skip(j as int)).1 == q.1,
                    closed ==> t@ == q.0 && s@.skip(j as int) == q.1,
                decreases s.len() - j, if closed { 0int } else { 1int },
            {
                let d = s[j];
                let ghost cj = s@.skip(j as int);
                assert(cj[0] == d);
                if d == '"' {
                    assert(cj.drop_first() =~= s@.skip(j + 1));
                    assert(t@ + Seq::<char>::empty() =~= t@);
                    j = j + 1;
                    closed = true;
                } else if d == '\\' {
                    if j + 1 < s.len() {
                        assert(cj[1] == s@[j + 1]);
                        assert(cj.skip(2) =~= s@.skip(j + 2));
                        let e = s[j + 1];
                        assert(t@.push(e) + read_quoted(s@.skip(j + 2)).0 =~= t@ + (seq![e] + read_quoted(s@.skip(j + 2)).0));
                        t.push(e);
                        j = j + 2;
                    } else {
                        assert(cj.len() == 1);
                        assert(s@.skip(j + 1) =~= Seq::<char>::empty());
                        assert(t@ + Seq::<char>::empty() =~= t@);
                        j = j + 1;
                        closed = true;
                    }
                } else {
                    assert(cj.drop_first() =~= s@.skip(j + 1));
                    assert(t@.push(d) + read_quoted(s@.skip(j + 1)).0 =~= t@ + (seq![d] + read_quoted(s@.skip(j + 1)).0));
                    t.push(d);
                    j = j + 1;
                }
            }
            if !closed {
                assert(s@.skip(j as int) =~= Seq::<char>::empty());
                assert(t@ + Seq::<char>::empty() =~= t@);
            }
            proof {
                lemma_read_quoted_shorter(s@.skip(i + 1));
                lemma_token_views_push(toks@, t, tokenize(s@.skip(j as int)));
            }
            toks.push(t);
            i = j;
        } else {
            let mut t: Vec<char> = vec![c];
            let mut j: usize = i + 1;
            proof { lemma_bare_run_bound(s@.skip(i + 1)); }
            let ghost n = 1 + bare_run(s@.skip(i + 1));
            while j < s.len() && !is_delim_char(s[j])
                invariant
                    i + 1 <= j <= i + n,
                    n == 1 + bare_run(s@.skip(i + 1)),
                    n <= s.len() - i,
                    t@ == s@.subrange(i as int, j as int),
                    forall|m: int| 0 <= m < bare_run(s@.skip(i + 1)) ==> !is_delim(#[trigger] s@.skip(i + 1)[m]),
                    bare_run(s@.skip(i + 1)) < s@.skip(i + 1).len() ==> is_delim(s@.skip(i + 1)[bare_run(s@.skip(i + 1)) as int]),
                decreases s.len() - j,
            {
                assert(s@.skip(i + 1)[j - i - 1] == s@[j as int]);
                assert(j < i + n);
                assert(t@.push(s@[j as int]) =~= s@.subrange(i as int, j + 1));
                t.push(s[j]);
                j = j + 1;
            }
            if j < s.len() {
                assert(s@.skip(i + 1)[j - i - 1] == s@[j as int]);
            }
            assert(j == i + n);
            assert(t@ =~= cur.take(n as int));
            assert(cur.skip(n as int) =~= s@.skip(j as int));
            proof { lemma_token_views_push(toks@, t, tokenize(s@.skip(j as int))); }
            toks.push(t);
            i = j;
        }
    }
    assert(s@.skip(i as int) =~= Seq::<char>::empty());
    assert(token_views(toks@) + Seq::<Seq<char>>::empty() =~= token_views(toks@));
    toks
}


pub fn is_single(t: &Vec<char>, c: char) -> (r: bool)
    ensures
        r == (t@ == seq![c]),
{
    if t.len() == 1 && t[0] == c {
        assert(t@ =~= seq![c]);
        true
    } else {
        false
    }
}

pub fn push_quoted(buf: &mut String, s: &str)
    ensures
        final(buf)@ == old(buf)@ + quote(s@),
{
    buf.push('"');
    buf.push_str(s);
    buf.push('"');
    assert(old(buf)@.push('"') + s@ + seq!['"'] =~= old(buf)@ + quote(s@));
}

} // verus!
