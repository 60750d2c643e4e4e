//! The keys a Lua install script declares, and the injector that writes them
//! into Steam's `config.vdf`.
//!
//! A script line declares `addappid(ID, FLAG, "KEY")`, `addappid(ID, "KEY")`
//! or `addappid(ID)`, with optional whitespace around the parentheses and
//! commas, `'` or `"` around the 64-hex-digit key, and anything before or
//! after; lines that start with `--` (after trimming) are comments.
use vstd::prelude::*;
use crate::paths::PathText;
use crate::text::{chars_of, has_prefix, is_white_space, starts_with_str, string_of, strings_view, trim_text, trimmed};
use crate::app_list::{pairs_view, lookup_pair, holds_text, find_value};

verus! {

pub struct VdfInjector {
    pub steam_path: PathText,
}

impl VdfInjector {
    pub fn new(steam_path: &str) -> (r: VdfInjector)
        ensures
            r.steam_path@ == seq![steam_path@],
    {
        VdfInjector { steam_path: PathText::new(steam_path) }
    }

    pub fn set_paths(&mut self, steam_path: &str)
        ensures
            final(self).steam_path@ == seq![steam_path@],
    {
        self.steam_path = PathText::new(steam_path);
    }

    /// `config/config.vdf` under the Steam folder.
    pub fn config_path(&self) -> (r: PathText)
        ensures
            r@ == self.steam_path@.push("config"@).push("config.vdf"@),
    {
        self.steam_path.join("config").join("config.vdf")
    }
}

// ---------------------------------------------------------------------------
// The line grammar
// ---------------------------------------------------------------------------

/// What the `regex` crate's `\d` accepts: a character of the Unicode
/// decimal-number category (`Nd`).
pub uninterp spec fn unicode_decimal(c: char) -> bool;

/// What `\d` accepts: for ASCII, exactly `0` to `9`; otherwise the Unicode
/// decimal digits.
pub open spec fn decimal_char(c: char) -> bool {
    if (c as u32) < 128 { '0' <= c && c <= '9' } else { unicode_decimal(c) }
}

/// `regex::Regex::is_match` of `^\d$` on the character alone: whether `\d`
/// accepts it. The pattern is a constant that compiles; were it refused, the
/// answer would be `false`.
#[verifier::external_body]
fn decimal_digit(c: char) -> (b: bool)
    ensures
        b == decimal_char(c),
        (c as u32) >= 128 ==> b == unicode_decimal(c),
{
    let mut buf = [0u8; 4];
    regex::Regex::new(r"^\d$").map(|re| re.is_match(c.encode_utf8(&mut buf))).unwrap_or(false)
}

/// A digit of an id, as the script grammar's `\d` reads one.
pub open spec fn is_digit(c: char) -> bool {
    decimal_char(c)
}

pub open spec fn is_hex(c: char) -> bool {
    ('0' <= c && c <= '9') || ('a' <= c && c <= 'f') || ('A' <= c && c <= 'F')
}

pub open spec fn is_quote(c: char) -> bool {
    c == '"' || c == '\''
}

/// The first position from `i` on that is not whitespace.
pub open spec fn skip_ws(s: Seq<char>, i: int) -> int
    decreases s.len() - i,
{
    if 0 <= i < s.len() && is_white_space(s[i]) {
        skip_ws(s, i + 1)
    } else {
        i
    }
}

/// The first position from `i` on that is not a digit.
pub open spec fn skip_digits(s: Seq<char>, i: int) -> int
    decreases s.len() - i,
{
    if 0 <= i < s.len() && is_digit(s[i]) {
        skip_digits(s, i + 1)
    } else {
        i
    }
}

pub open spec fn char_at(s: Seq<char>, i: int, c: char) -> bool {
    0 <= i < s.len() && s[i] == c
}

/// `addappid`, blanks, `(`, blanks, the id's digits, blanks: the id and the
/// position after.
pub open spec fn head_at(s: Seq<char>, p: int) -> Option<(Seq<char>, int)> {
    if !(0 <= p && p + 8 <= s.len() && s.subrange(p, p + 8) == "addappid"@) {
        None
    } else {
        let a = skip_ws(s, p + 8);
        if !char_at(s, a, '(') {
            None
        } else {
            let b = skip_ws(s, a + 1);
            let c = skip_digits(s, b);
            if c == b {
                None
            } else {
                Some((s.subrange(b, c), skip_ws(s, c)))
            }
        }
    }
}

/// A quote, 64 hex digits, a quote: the digits.
pub open spec fn key_at(s: Seq<char>, i: int) -> Option<Seq<char>> {
    if 0 <= i && i + 66 <= s.len() && is_quote(s[i]) && is_quote(s[i + 65])
        && forall|k: int| i + 1 <= k < i + 65 ==> #[trigger] is_hex(s[k]) {
        Some(s.subrange(i + 1, i + 65))
    } else {
        None
    }
}

/// `addappid(ID, FLAG, "KEY"` starting at `p`.
pub open spec fn match3_at(s: Seq<char>, p: int) -> Option<(Seq<char>, Seq<char>)> {
    match head_at(s, p) {
        None => None,
        Some((id, d)) => if !char_at(s, d, ',') {
            None
        } else {
            let e = skip_ws(s, d + 1);
            let f = skip_digits(s, e);
            if f == e {
                None
            } else {
                let g = skip_ws(s, f);
                if !char_at(s, g, ',') {
                    None
                } else {
                    match key_at(s, skip_ws(s, g + 1)) {
                        Some(k) => Some((id, k)),
                        None => None,
                    }
                }
            }
        },
    }
}

/// `addappid(ID, "KEY"` starting at `p`.
pub open spec fn match2_at(s: Seq<char>, p: int) -> Option<(Seq<char>, Seq<char>)> {
    match head_at(s, p) {
        None => None,
        Some((id, d)) => if !char_at(s, d, ',') {
            None
        } else {
            match key_at(s, skip_ws(s, d + 1)) {
                Some(k) => Some((id, k)),
                None => None,
            }
        },
    }
}

/// `addappid(ID)` starting at `p`.
pub open spec fn match_id_at(s: Seq<char>, p: int) -> Option<Seq<char>> {
    match head_at(s, p) {
        None => None,
        Some((id, d)) => if char_at(s, d, ')') { Some(id) } else { None },
    }
}

/// Which of the three forms is sought.
pub enum Form {
    Three,
    Two,
    IdOnly,
}

/// A match of a form at `p`: the id and the key (empty for the id-only form).
pub open spec fn form_at(s: Seq<char>, p: int, f: Form) -> Option<(Seq<char>, Seq<char>)> {
    match f {
        Form::Three => match3_at(s, p),
        Form::Two => match2_at(s, p),
        Form::IdOnly => match match_id_at(s, p) {
            Some(id) => Some((id, Seq::empty())),
            None => None,
        },
    }
}

/// The leftmost match of a form from `p` on.
pub open spec fn first_form(s: Seq<char>, p: int, f: Form) -> Option<(Seq<char>, Seq<char>)>
    decreases s.len() - p,
{
    if p < 0 || p >= s.len() {
        None
    } else {
        match form_at(s, p, f) {
            Some(m) => Some(m),
            None => first_form(s, p + 1, f),
        }
    }
}

// ---------------------------------------------------------------------------
// The script
// ---------------------------------------------------------------------------

/// The segments between newlines. Each is trimmed before it is read, so a
/// carriage return before the newline, and an empty segment after a final
/// newline, change nothing.
pub open spec fn segments(s: Seq<char>) -> Seq<Seq<char>> {
    crate::text::split_char(s, '\n')
}

/// The ids with one more, unless it is there already.
pub open spec fn with_id(ids: Seq<Seq<char>>, id: Seq<char>) -> Seq<Seq<char>> {
    if ids.contains(id) { ids } else { ids.push(id) }
}

/// The keys with one stored under an id: it replaces the first entry for the
/// id, or is appended.
pub open spec fn with_key(keys: Seq<(Seq<char>, Seq<char>)>, id: Seq<char>, key: Seq<char>) -> Seq<(Seq<char>, Seq<char>)>
    decreases keys.len(),
{
    if keys.len() == 0 {
        seq![(id, key)]
    } else if keys[0].0 == id {
        keys.update(0, (id, key))
    } else {
        seq![keys[0]] + with_key(keys.drop_first(), id, key)
    }
}

/// The listed ids after a declaration with a key: its id joins them when no
/// key is stored yet.
pub open spec fn first_keyed(acc: (Seq<Seq<char>>, Seq<(Seq<char>, Seq<char>)>), id: Seq<char>) -> Seq<Seq<char>> {
    if acc.1.len() == 0 { with_id(acc.0, id) } else { acc.0 }
}

/// What one line adds: a three-argument declaration stores its key (replacing
/// one stored before); a two-argument one stores its key only when none is
/// stored for its id yet. The id of a declaration with a key is listed only
/// when it is the first declaration with a key (no key is stored yet). An
/// id-only declaration lists its id. Comment lines add nothing.
pub open spec fn read_line(acc: (Seq<Seq<char>>, Seq<(Seq<char>, Seq<char>)>), line: Seq<char>)
    -> (Seq<Seq<char>>, Seq<(Seq<char>, Seq<char>)>)
{
    let t = trimmed(line);
    if has_prefix(t, "--"@) {
        acc
    } else {
        match first_form(t, 0, Form::Three) {
            Some((id, key)) => (first_keyed(acc, id), with_key(acc.1, id, key)),
            None => match first_form(t, 0, Form::Two) {
                Some((id, key)) => (first_keyed(acc, id), if lookup_pair(acc.1, id) is Some {
                    acc.1
                } else {
                    with_key(acc.1, id, key)
                }),
                None => match first_form(t, 0, Form::IdOnly) {
                    Some((id, _)) => (with_id(acc.0, id), acc.1),
                    None => acc,
                },
            },
        }
    }
}

pub open spec fn read_lines(lines: Seq<Seq<char>>) -> (Seq<Seq<char>>, Seq<(Seq<char>, Seq<char>)>)
    decreases lines.len(),
{
    if lines.len() == 0 {
        (Seq::empty(), Seq::empty())
    } else {
        read_line(read_lines(lines.drop_last()), lines.last())
    }
}

/// The ids for the app list (those declared without a key, and the first id
/// declared with one), in first-declared order, and the depot keys.
pub open spec fn lua_keys(content: Seq<char>) -> (Seq<Seq<char>>, Seq<(Seq<char>, Seq<char>)>) {
    read_lines(segments(content))
}

// ---------------------------------------------------------------------------
// Reading it
// ---------------------------------------------------------------------------

fn skip_ws_from(cs: &Vec<char>, i: usize) -> (r: usize)
    requires
        i <= cs.len(),
    ensures
        r == skip_ws(cs@, i as int),
        i <= r <= cs.len(),
{
    let mut j: usize = i;
    while j < cs.len() && cs[j].is_whitespace()
        invariant
            i <= j <= cs.len(),
            skip_ws(cs@, i as int) == skip_ws(cs@, j as int),
        decreases cs.len() - j,
    {
        j = j + 1;
    }
    j
}

fn skip_digits_from(cs: &Vec<char>, i: usize) -> (r: usize)
    requires
        i <= cs.len(),
    ensures
        r == skip_digits(cs@, i as int),
        i <= r <= cs.len(),
        forall|k: int| i <= k < r ==> is_digit(#[trigger] cs@[k]),
{
    let mut j: usize = i;
    while j < cs.len() && decimal_digit(cs[j])
        invariant
            i <= j <= cs.len(),
            skip_digits(cs@, i as int) == skip_digits(cs@, j as int),
            forall|k: int| i <= k < j ==> is_digit(#[trigger] cs@[k]),
        decreases cs.len() - j,
    {
        j = j + 1;
    }
    j
}

fn head_from(cs: &Vec<char>, p: usize) -> (r: Option<(String, usize)>)
    requires
        p < cs.len(),
    ensures
        match head_at(cs@, p as int) {
            Some((id, d)) => r matches Some((s, e)) && s@ == id && e as int == d && e <= cs.len(),
            None => r is None,
        },
{
    let word: Vec<char> = vec!['a', 'd', 'd', 'a', 'p', 'p', 'i', 'd'];
    proof {
        reveal_strlit("addappid");
        assert(word@ =~= "addappid"@);
    }
    if cs.len() - p < 8 || !crate::text::occurs_at(cs, &word, p) {
        return None;
    }
    let a = skip_ws_from(cs, p + 8);
    if a >= cs.len() || cs[a] != '(' {
        return None;
    }
    let b = skip_ws_from(cs, a + 1);
    let c = skip_digits_from(cs, b);
    if c == b {
        return None;
    }
    let id = string_of(&crate::profiles::slice_chars(cs, b, c));
    let e = skip_ws_from(cs, c);
    Some((id, e))
}

fn key_from(cs: &Vec<char>, i: usize) -> (r: Option<String>)
    requires
        i <= cs.len(),
    ensures
        match key_at(cs@, i as int) {
            Some(k) => r matches Some(s) && s@ == k,
            None => r is None,
        },
{
    if cs.len() - i < 66 {
        return None;
    }
    if !(cs[i] == '"' || cs[i] == '\'') || !(cs[i + 65] == '"' || cs[i + 65] == '\'') {
        return None;
    }
    let mut k: usize = i + 1;
    while k < i + 65
        invariant
            i + 1 <= k <= i + 65,
            i + 66 <= cs.len(),
            forall|m: int| i + 1 <= m < k ==> #[trigger] is_hex(cs@[m]),
        decreases i + 65 - k,
    {
        let c = cs[k];
        if !(('0' <= c && c <= '9') || ('a' <= c && c <= 'f') || ('A' <= c && c <= 'F')) {
            assert(!is_hex(cs@[k as int]));
            return None;
        }
        k = k + 1;
    }
    Some(string_of(&crate::profiles::slice_chars(cs, i + 1, i + 65)))
}

fn form_from(cs: &Vec<char>, p: usize, f: &Form) -> (r: Option<(String, String)>)
    requires
        p < cs.len(),
    ensures
        match form_at(cs@, p as int, *f) {
            Some((id, key)) => r matches Some((a, b)) && a@ == id && b@ == key,
            None => r is None,
        },
{
    let (id, d) = match head_from(cs, p) {
        Some(h) => h,
        None => {
            return None;
        },
    };
    match f {
        Form::IdOnly => {
            if d < cs.len() && cs[d] == ')' {
                Some((id, String::new()))
            } else {
                None
            }
        },
        Form::Two => {
            if d >= cs.len() || cs[d] != ',' {
                return None;
            }
            let h = skip_ws_from(cs, d + 1);
            match key_from(cs, h) {
                Some(k) => Some((id, k)),
                None => None,
            }
        },
        Form::Three => {
            if d >= cs.len() || cs[d] != ',' {
                return None;
            }
            let e = skip_ws_from(cs, d + 1);
            let g0 = skip_digits_from(cs, e);
            if g0 == e {
                return None;
            }
            let g = skip_ws_from(cs, g0);
            if g >= cs.len() || cs[g] != ',' {
                return None;
            }
            let h = skip_ws_from(cs, g + 1);
            match key_from(cs, h) {
                Some(k) => Some((id, k)),
                None => None,
            }
        },
    }
}

fn first_form_in(cs: &Vec<char>, f: &Form) -> (r: Option<(String, String)>)
    ensures
        match first_form(cs@, 0, *f) {
            Some((id, key)) => r matches Some((a, b)) && a@ == id && b@ == key,
            None => r is None,
        },
{
    let mut p: usize = 0;
    while p < cs.len()
        invariant
            p <= cs.len(),
            first_form(cs@, 0, *f) == first_form(cs@, p as int, *f),
        decreases cs.len() - p,
    {
        match form_from(cs, p, f) {
            Some(m) => {
                return Some(m);
            },
            None => {},
        }
        p = p + 1;
    }
    None
}

/// The keys with one stored under an id.
pub(crate) fn store_key(keys: &mut Vec<(String, String)>, id: String, key: String)
    ensures
        pairs_view(final(keys)@) == with_key(pairs_view(old(keys)@), id@, key@),
{
    let ghost kv = pairs_view(keys@);
    let mut i: usize = 0;
    while i < keys.len()
        invariant
            i <= keys.len(),
            keys@ == old(keys)@,
            kv == pairs_view(keys@),
            forall|k: int| 0 <= k < i ==> #[trigger] kv[k].0 != id@,
        decreases keys.len() - i,
    {
        if crate::text::text_eq(&keys[i].0, &id) {
            let ghost before = keys@;
            proof { lemma_with_key_at(kv, id@, key@, i as int); }
            let ghost newk = key@;
            let ghost newid = id@;
            keys.set(i, (id, key));
            assert(pairs_view(keys@) =~= kv.update(i as int, (newid, newk)));
            return;
        }
        i = i + 1;
    }
    proof { lemma_with_key_absent(kv, id@, key@); }
    let ghost newk = key@;
    let ghost newid = id@;
    keys.push((id, key));
    assert(pairs_view(keys@) =~= kv.push((newid, newk)));
}

proof fn lemma_with_key_at(kv: Seq<(Seq<char>, Seq<char>)>, id: Seq<char>, key: Seq<char>, i: int)
    requires
        0 <= i < kv.len(),
        kv[i].0 == id,
        forall|k: int| 0 <= k < i ==> #[trigger] kv[k].0 != id,
    ensures
        with_key(kv, id, key) == kv.update(i, (id, key)),
    decreases kv.len(),
{
    if i > 0 {
        assert forall|k: int| 0 <= k < i - 1 implies #[trigger] kv.drop_first()[k].0 != id by {
            assert(kv.drop_first()[k] == kv[k + 1]);
        }
        lemma_with_key_at(kv.drop_first(), id, key, i - 1);
        assert(seq![kv[0]] + kv.drop_first().update(i - 1, (id, key)) =~= kv.update(i, (id, key)));
    }
}

proof fn lemma_with_key_absent(kv: Seq<(Seq<char>, Seq<char>)>, id: Seq<char>, key: Seq<char>)
    requires
        forall|k: int| 0 <= k < kv.len() ==> #[trigger] kv[k].0 != id,
    ensures
        with_key(kv, id, key) == kv.push((id, key)),
    decreases kv.len(),
{
    if kv.len() > 0 {
        assert forall|k: int| 0 <= k < kv.drop_first().len() implies #[trigger] kv.drop_first()[k].0 != id by {
            assert(kv.drop_first()[k] == kv[k + 1]);
        }
        lemma_with_key_absent(kv.drop_first(), id, key);
        assert(seq![kv[0]] + kv.drop_first().push((id, key)) =~= kv.push((id, key)));
    } else {
        assert(seq![(id, key)] =~= kv.push((id, key)));
    }
}

fn add_id(ids: &mut Vec<String>, id: &String)
    ensures
        strings_view(final(ids)@) == with_id(strings_view(old(ids)@), id@),
{
    if !holds_text(ids, id) {
        let t = id.clone();
        proof { crate::text::lemma_strings_view_push(ids@, t); }
        ids.push(t);
    }
}

/// Reads a Lua install script: the ids for the app list (each id declared
/// without a key, and the first id declared with one; each once, in the order
/// first declared) and all the depot keys.
pub fn parse_lua_for_keys(lua_content: &str) -> (r: (Vec<String>, Vec<(String, String)>))
    ensures
        strings_view(r.0@) == lua_keys(lua_content@).0,
        pairs_view(r.1@) == lua_keys(lua_content@).1,
{
    let cs = chars_of(lua_content);
    let lines = crate::text::split_chars(&cs, '\n');
    let ghost ls = lines@.map_values(|v: Vec<char>| v@);
    let mut ids: Vec<String> = Vec::new();
    let mut keys: Vec<(String, String)> = Vec::new();
    let mut i: usize = 0;
    while i < lines.len()
        invariant
            i <= lines.len(),
            ls == lines@.map_values(|v: Vec<char>| v@),
            (strings_view(ids@), pairs_view(keys@)) == read_lines(ls.take(i as int)),
        decreases lines.len() - i,
    {
        proof {
            assert(ls.take(i as int + 1).drop_last() =~= ls.take(i as int));
            assert(ls.take(i as int + 1).last() == lines@[i as int]@);
        }
        let line = string_of(&lines[i]);
        let t = trim_text(&line);
        if !starts_with_str(&t, "--") {
            let tc = chars_of(&t);
            match first_form_in(&tc, &Form::Three) {
                Some((id, key)) => {
                    if keys.len() == 0 {
                        add_id(&mut ids, &id);
                    }
                    store_key(&mut keys, id, key);
                },
                None => match first_form_in(&tc, &Form::Two) {
                    Some((id, key)) => {
                        if keys.len() == 0 {
                            add_id(&mut ids, &id);
                        }
                        if find_value(&keys, &id).is_none() {
                            store_key(&mut keys, id, key);
                        }
                    },
                    None => match first_form_in(&tc, &Form::IdOnly) {
                        Some((id, _)) => {
                            add_id(&mut ids, &id);
                        },
                        None => {},
                    },
                },
            }
        }
        i = i + 1;
    }
    assert(ls.take(lines.len() as int) =~= ls);
    (ids, keys)
}


// ---------------------------------------------------------------------------
// Editing `config.vdf` in place
// ---------------------------------------------------------------------------

/// Why keys could not be put into `config.vdf`'s text.
#[derive(Debug, PartialEq, Eq, Structural)]
pub enum TextInjectError {
    /// The text has neither a `"depots"` nor a `"Steam"` section opening.
    MissingSteamSection,
    /// A `depots` section was added but is not found again.
    DepotsNotCreated,
}

impl TextInjectError {
    pub fn message(&self) -> (r: String)
        ensures
            *self == TextInjectError::MissingSteamSection ==> r@ == "Cannot find Steam section in config.vdf"@,
            *self == TextInjectError::DepotsNotCreated ==> r@ == "Failed to create depots section"@,
    {
        match self {
            TextInjectError::MissingSteamSection => "Cannot find Steam section in config.vdf".to_string(),
            TextInjectError::DepotsNotCreated => "Failed to create depots section".to_string(),
        }
    }
}

/// A text in double quotes.
pub open spec fn quoted(x: Seq<char>) -> Seq<char> {
    "\""@ + x + "\""@
}

/// The literal `lit` stands at `i`.
pub open spec fn lit_at(s: Seq<char>, i: int, lit: Seq<char>) -> bool {
    0 <= i && i + lit.len() <= s.len() && s.subrange(i, i + lit.len()) == lit
}

pub open spec fn is_blank(c: char) -> bool {
    c == ' ' || c == '\t'
}

/// The first position from `i` on that is no space or tab.
pub open spec fn skip_blanks(s: Seq<char>, i: int) -> int
    decreases s.len() - i,
{
    if 0 <= i < s.len() && is_blank(s[i]) {
        skip_blanks(s, i + 1)
    } else {
        i
    }
}

/// The first position from `i` on that is no hex digit.
pub open spec fn skip_hex(s: Seq<char>, i: int) -> int
    decreases s.len() - i,
{
    if 0 <= i < s.len() && is_hex(s[i]) {
        skip_hex(s, i + 1)
    } else {
        i
    }
}

/// A line break (`\n` or `\r\n`) at `i`: the position after it.
pub open spec fn line_break_at(s: Seq<char>, i: int) -> Option<int> {
    if 0 <= i < s.len() && s[i] == '\n' {
        Some(i + 1)
    } else if 0 <= i && i + 1 < s.len() && s[i] == '\r' && s[i + 1] == '\n' {
        Some(i + 2)
    } else {
        None
    }
}

/// A section opening at `p`: the quoted name `q`, whitespace, `{`, spaces or
/// tabs, a line break. The position after it.
pub open spec fn opening_at(s: Seq<char>, p: int, q: Seq<char>) -> Option<int> {
    if lit_at(s, p, q) {
        let a = skip_ws(s, p + q.len());
        if 0 <= a < s.len() && s[a] == '{' {
            line_break_at(s, skip_blanks(s, a + 1))
        } else {
            None
        }
    } else {
        None
    }
}

/// The end of the leftmost section opening from `p` on.
pub open spec fn first_opening(s: Seq<char>, q: Seq<char>, p: int) -> Option<int>
    decreases s.len() - p,
{
    if p < 0 || p >= s.len() {
        None
    } else {
        match opening_at(s, p, q) {
            Some(e) => Some(e),
            None => first_opening(s, q, p + 1),
        }
    }
}

/// Some position in `[a, b)` holds a newline.
pub open spec fn has_newline(s: Seq<char>, a: int, b: int) -> bool {
    exists|k: int| a <= k < b && #[trigger] s[k] == '\n'
}

/// A depot's key entry at `p`: the quoted id `q`, whitespace, `{`,
/// whitespace holding a newline, `"DecryptionKey"`, whitespace, a quote, hex
/// digits, a quote. Where the hex digits start and end.
pub open spec fn key_value_at(s: Seq<char>, p: int, q: Seq<char>) -> Option<(int, int)> {
    if lit_at(s, p, q) {
        let a = skip_ws(s, p + q.len());
        if 0 <= a < s.len() && s[a] == '{' {
            let b = skip_ws(s, a + 1);
            if has_newline(s, a + 1, b) && lit_at(s, b, "\"DecryptionKey\""@) {
                let c = skip_ws(s, b + 15);
                if 0 <= c < s.len() && s[c] == '"' {
                    let d = skip_hex(s, c + 1);
                    if 0 <= d < s.len() && s[d] == '"' { Some((c + 1, d)) } else { None }
                } else {
                    None
                }
            } else {
                None
            }
        } else {
            None
        }
    } else {
        None
    }
}

/// The leftmost key entry from `p` on.
pub open spec fn first_key_value(s: Seq<char>, q: Seq<char>, p: int) -> Option<(int, int)>
    decreases s.len() - p,
{
    if p < 0 || p >= s.len() {
        None
    } else {
        match key_value_at(s, p, q) {
            Some(m) => Some(m),
            None => first_key_value(s, q, p + 1),
        }
    }
}

/// The last newline in `[a, b)`, or `a - 1` when there is none.
pub open spec fn last_newline(s: Seq<char>, a: int, b: int) -> int
    decreases b - a,
{
    if b <= a {
        a - 1
    } else if s[b - 1] == '\n' {
        b - 1
    } else {
        last_newline(s, a, b - 1)
    }
}

/// A whole key block at `p`: spaces or tabs, the key entry, whitespace
/// holding a newline, `}`, then whitespace up to and including its last
/// newline. The position after it.
pub open spec fn block_at(s: Seq<char>, p: int, q: Seq<char>) -> Option<int> {
    let p1 = skip_blanks(s, p);
    match key_value_at(s, p1, q) {
        Some((_, d)) => {
            let e = skip_ws(s, d + 1);
            if has_newline(s, d + 1, e) && 0 <= e < s.len() && s[e] == '}' {
                let f = skip_ws(s, e + 1);
                if has_newline(s, e + 1, f) { Some(last_newline(s, e + 1, f) + 1) } else { None }
            } else {
                None
            }
        },
        None => None,
    }
}

/// The leftmost key block from `p` on: where it starts and ends.
pub open spec fn first_block(s: Seq<char>, q: Seq<char>, p: int) -> Option<(int, int)>
    decreases s.len() - p,
{
    if p < 0 || p >= s.len() {
        None
    } else {
        match block_at(s, p, q) {
            Some(e) => Some((p, e)),
            None => first_block(s, q, p + 1),
        }
    }
}

/// The block of a new depot key, indented as Steam indents them.
pub open spec fn key_block(id: Seq<char>, key: Seq<char>) -> Seq<char> {
    "\t\t\t\t\t\""@ + id + "\"\n\t\t\t\t\t{\n\t\t\t\t\t\t\"DecryptionKey\"\t\t\""@ + key + "\"\n\t\t\t\t\t}\n"@
}

/// The empty `depots` section added under `Steam`.
pub open spec fn depots_block() -> Seq<char> {
    "\t\t\t\t\"depots\"\n\t\t\t\t{\n\t\t\t\t}\n"@
}

/// One key put into the text: an existing entry for the depot (the leftmost
/// anywhere) gets its hex digits replaced; otherwise the key's block goes
/// right after the leftmost `depots` opening.
pub open spec fn put_key_text(t: Seq<char>, id: Seq<char>, key: Seq<char>) -> Seq<char> {
    match first_key_value(t, quoted(id), 0) {
        Some((a, b)) => t.take(a) + key + t.skip(b),
        None => match first_opening(t, quoted("depots"@), 0) {
            Some(e) => t.take(e) + key_block(id, key) + t.skip(e),
            None => t,
        },
    }
}

/// The keys put into the text one after another, in the given order.
pub open spec fn put_keys_text(t: Seq<char>, keys: Seq<(Seq<char>, Seq<char>)>) -> Seq<char>
    decreases keys.len(),
{
    if keys.len() == 0 {
        t
    } else {
        put_key_text(put_keys_text(t, keys.drop_last()), keys.last().0, keys.last().1)
    }
}

/// The text with a `depots` section: as it is when it has one; else with an
/// empty one added right after the `Steam` opening; an error when it has
/// neither.
pub open spec fn with_depots_text(t: Seq<char>) -> Result<Seq<char>, TextInjectError> {
    if first_opening(t, quoted("depots"@), 0) is Some {
        Ok(t)
    } else {
        match first_opening(t, quoted("Steam"@), 0) {
            Some(e) => {
                let u = t.take(e) + depots_block() + t.skip(e);
                if first_opening(u, quoted("depots"@), 0) is Some { Ok(u) } else { Err(TextInjectError::DepotsNotCreated) }
            },
            None => Err(TextInjectError::MissingSteamSection),
        }
    }
}

/// The text after the keys are injected: unchanged for no keys.
pub open spec fn injected_text(t: Seq<char>, keys: Seq<(Seq<char>, Seq<char>)>) -> Result<Seq<char>, TextInjectError> {
    if keys.len() == 0 {
        Ok(t)
    } else {
        match with_depots_text(t) {
            Ok(u) => Ok(put_keys_text(u, keys)),
            Err(e) => Err(e),
        }
    }
}

/// The text with the leftmost key block of each depot removed in turn, and
/// how many depots had one.
pub open spec fn removed_keys_text(t: Seq<char>, ids: Seq<Seq<char>>) -> (Seq<char>, nat)
    decreases ids.len(),
{
    if ids.len() == 0 {
        (t, 0)
    } else {
        let (u, n) = removed_keys_text(t, ids.drop_last());
        match first_block(u, quoted(ids.last()), 0) {
            Some((p, e)) => (u.take(p) + u.skip(e), n + 1),
            None => (u, n),
        }
    }
}

fn lit_at_in(cs: &Vec<char>, i: usize, lit: &Vec<char>) -> (r: bool)
    ensures
        r == lit_at(cs@, i as int, lit@),
{
    if i > cs.len() || lit.len() > cs.len() - i {
        return false;
    }
    let mut k: usize = 0;
    while k < lit.len()
        invariant
            k <= lit.len(),
            i + lit.len() <= cs.len(),
            forall|j: int| 0 <= j < k ==> cs@[i + j] == lit@[j],
        decreases lit.len() - k,
    {
        if cs[i + k] != lit[k] {
            assert(cs@.subrange(i as int, i + lit.len())[k as int] != lit@[k as int]);
            return false;
        }
        k = k + 1;
    }
    assert(cs@.subrange(i as int, i + lit.len()) =~= lit@);
    true
}

fn skip_blanks_from(cs: &Vec<char>, i: usize) -> (r: usize)
    requires
        i <= cs.len(),
    ensures
        r == skip_blanks(cs@, i as int),
        i <= r <= cs.len(),
{
    let mut j: usize = i;
    while j < cs.len() && (cs[j] == ' ' || cs[j] == '\t')
        invariant
            i <= j <= cs.len(),
            skip_blanks(cs@, i as int) == skip_blanks(cs@, j as int),
        decreases cs.len() - j,
    {
        j = j + 1;
    }
    j
}

fn skip_hex_from(cs: &Vec<char>, i: usize) -> (r: usize)
    requires
        i <= cs.len(),
    ensures
        r == skip_hex(cs@, i as int),
        i <= r <= cs.len(),
{
    let mut j: usize = i;
    while j < cs.len() && (('0' <= cs[j] && cs[j] <= '9') || ('a' <= cs[j] && cs[j] <= 'f') || ('A' <= cs[j] && cs[j] <= 'F'))
        invariant
            i <= j <= cs.len(),
            skip_hex(cs@, i as int) == skip_hex(cs@, j as int),
        decreases cs.len() - j,
    {
        j = j + 1;
    }
    j
}

fn newline_in(cs: &Vec<char>, a: usize, b: usize) -> (r: bool)
    requires
        a <= b <= cs.len(),
    ensures
        r == has_newline(cs@, a as int, b as int),
{
    let mut k: usize = a;
    while k < b
        invariant
            a <= k <= b <= cs.len(),
            forall|j: int| a <= j < k ==> cs@[j] != '\n',
        decreases b - k,
    {
        if cs[k] == '\n' {
            return true;
        }
        k = k + 1;
    }
    false
}

fn last_newline_in(cs: &Vec<char>, a: usize, b: usize) -> (r: usize)
    requires
        a <= b <= cs.len(),
        has_newline(cs@, a as int, b as int),
    ensures
        r as int == last_newline(cs@, a as int, b as int),
        a <= r < b,
{
    let mut k: usize = b;
    while k > a && cs[k - 1] != '\n'
        invariant
            a <= k <= b <= cs.len(),
            last_newline(cs@, a as int, b as int) == last_newline(cs@, a as int, k as int),
            has_newline(cs@, a as int, k as int),
        decreases k,
    {
        let ghost w = choose|w: int| a <= w < k && #[trigger] cs@[w] == '\n';
        assert(w < k - 1);
        k = k - 1;
    }
    if k == a {
        let ghost w = choose|w: int| a <= w < k && #[trigger] cs@[w] == '\n';
        assert(false);
    }
    k - 1
}

fn line_break_in(cs: &Vec<char>, i: usize) -> (r: Option<usize>)
    requires
        i <= cs.len(),
    ensures
        match line_break_at(cs@, i as int) {
            Some(e) => r == Some(e as usize),
            None => r is None,
        },
{
    if i < cs.len() && cs[i] == '\n' {
        Some(i + 1)
    } else if i < cs.len() && i + 1 < cs.len() && cs[i] == '\r' && cs[i + 1] == '\n' {
        Some(i + 2)
    } else {
        None
    }
}

fn opening_in(cs: &Vec<char>, p: usize, q: &Vec<char>) -> (r: Option<usize>)
    requires
        p < cs.len(),
    ensures
        match opening_at(cs@, p as int, q@) {
            Some(e) => r == Some(e as usize),
            None => r is None,
        },
{
    if !lit_at_in(cs, p, q) {
        return None;
    }
    let a = skip_ws_from(cs, p + q.len());
    if a < cs.len() && cs[a] == '{' {
        let b = skip_blanks_from(cs, a + 1);
        line_break_in(cs, b)
    } else {
        None
    }
}

fn first_opening_in(cs: &Vec<char>, q: &Vec<char>) -> (r: Option<usize>)
    ensures
        match first_opening(cs@, q@, 0) {
            Some(e) => r == Some(e as usize),
            None => r is None,
        },
{
    let mut p: usize = 0;
    while p < cs.len()
        invariant
            p <= cs.len(),
            first_opening(cs@, q@, 0) == first_opening(cs@, q@, p as int),
        decreases cs.len() - p,
    {
        match opening_in(cs, p, q) {
            Some(e) => return Some(e),
            None => {},
        }
        p = p + 1;
    }
    None
}

fn key_value_in(cs: &Vec<char>, p: usize, q: &Vec<char>) -> (r: Option<(usize, usize)>)
    requires
        p < cs.len(),
    ensures
        match key_value_at(cs@, p as int, q@) {
            Some((a, b)) => r == Some((a as usize, b as usize)) && p < a <= b < cs.len(),
            None => r is None,
        },
{
    if !lit_at_in(cs, p, q) {
        return None;
    }
    let a = skip_ws_from(cs, p + q.len());
    if !(a < cs.len() && cs[a] == '{') {
        return None;
    }
    let b = skip_ws_from(cs, a + 1);
    let dk: Vec<char> = chars_of("\"DecryptionKey\"");
    proof { reveal_strlit("\"DecryptionKey\""); }
    if !(newline_in(cs, a + 1, b) && lit_at_in(cs, b, &dk)) {
        return None;
    }
    assert(dk@.len() == 15);
    let c = skip_ws_from(cs, b + 15);
    if !(c < cs.len() && cs[c] == '"') {
        return None;
    }
    let d = skip_hex_from(cs, c + 1);
    if d < cs.len() && cs[d] == '"' {
        Some((c + 1, d))
    } else {
        None
    }
}

fn first_key_value_in(cs: &Vec<char>, q: &Vec<char>) -> (r: Option<(usize, usize)>)
    ensures
        match first_key_value(cs@, q@, 0) {
            Some((a, b)) => r == Some((a as usize, b as usize)) && 0 <= a <= b <= cs.len(),
            None => r is None,
        },
{
    let mut p: usize = 0;
    while p < cs.len()
        invariant
            p <= cs.len(),
            first_key_value(cs@, q@, 0) == first_key_value(cs@, q@, p as int),
        decreases cs.len() - p,
    {
        match key_value_in(cs, p, q) {
            Some((a, b)) => {
                return Some((a, b));
            },
            None => {},
        }
        p = p + 1;
    }
    None
}

fn block_in(cs: &Vec<char>, p: usize, q: &Vec<char>) -> (r: Option<usize>)
    requires
        p < cs.len(),
    ensures
        match block_at(cs@, p as int, q@) {
            Some(e) => r == Some(e as usize) && p <= e <= cs.len(),
            None => r is None,
        },
{
    let p1 = skip_blanks_from(cs, p);
    if p1 >= cs.len() {
        return None;
    }
    match key_value_in(cs, p1, q) {
        Some((_, d)) => {
            let e = skip_ws_from(cs, d + 1);
            if newline_in(cs, d + 1, e) && e < cs.len() && cs[e] == '}' {
                let f = skip_ws_from(cs, e + 1);
                if newline_in(cs, e + 1, f) {
                    let l = last_newline_in(cs, e + 1, f);
                    Some(l + 1)
                } else {
                    None
                }
            } else {
                None
            }
        },
        None => None,
    }
}

fn first_block_in(cs: &Vec<char>, q: &Vec<char>) -> (r: Option<(usize, usize)>)
    ensures
        match first_block(cs@, q@, 0) {
            Some((a, b)) => r == Some((a as usize, b as usize)) && 0 <= a <= b <= cs.len(),
            None => r is None,
        },
{
    let mut p: usize = 0;
    while p < cs.len()
        invariant
            p <= cs.len(),
            first_block(cs@, q@, 0) == first_block(cs@, q@, p as int),
        decreases cs.len() - p,
    {
        match block_in(cs, p, q) {
            Some(e) => return Some((p, e)),
            None => {},
        }
        p = p + 1;
    }
    None
}

/// `cs` with `[a, b)` replaced by `ins`.
fn splice(cs: &Vec<char>, a: usize, b: usize, ins: &Vec<char>) -> (r: Vec<char>)
    requires
        a <= b <= cs.len(),
    ensures
        r@ == cs@.take(a as int) + ins@ + cs@.skip(b as int),
{
    let mut r: Vec<char> = Vec::new();
    let mut i: usize = 0;
    while i < a
        invariant
            i <= a <= b <= cs.len(),
            r@ == cs@.take(i as int),
        decreases a - i,
    {
        r.push(cs[i]);
        assert(cs@.take(i as int + 1) =~= cs@.take(i as int).push(cs@[i as int]));
        i = i + 1;
    }
    let mut j: usize = 0;
    while j < ins.len()
        invariant
            j <= ins.len(),
            r@ == cs@.take(a as int) + ins@.take(j as int),
        decreases ins.len() - j,
    {
        r.push(ins[j]);
        assert(ins@.take(j as int + 1) =~= ins@.take(j as int).push(ins@[j as int]));
        j = j + 1;
    }
    assert(ins@.take(ins.len() as int) =~= ins@);
    let ghost pre = r@;
    let mut k: usize = b;
    while k < cs.len()
        invariant
            b <= k <= cs.len(),
            pre == cs@.take(a as int) + ins@,
            r@ == pre + cs@.subrange(b as int, k as int),
        decreases cs.len() - k,
    {
        r.push(cs[k]);
        assert(cs@.subrange(b as int, k as int + 1) =~= cs@.subrange(b as int, k as int).push(cs@[k as int]));
        k = k + 1;
    }
    assert(cs@.subrange(b as int, cs.len() as int) =~= cs@.skip(b as int));
    r
}

fn quoted_chars(x: &str) -> (r: Vec<char>)
    ensures
        r@ == quoted(x@),
{
    chars_of(&crate::text::concat3("\"", x, "\""))
}

fn put_key_in(cs: &Vec<char>, id: &str, key: &str) -> (r: Vec<char>)
    ensures
        r@ == put_key_text(cs@, id@, key@),
{
    let q = quoted_chars(id);
    match first_key_value_in(cs, &q) {
        Some((a, b)) => {
            let k = chars_of(key);
            splice(cs, a, b, &k)
        },
        None => {
            let dq = quoted_chars("depots");
            match first_opening_in(cs, &dq) {
                Some(e) => {
                    proof { lemma_first_opening_bound(cs@, dq@, 0); }
                    let block = chars_of(&crate::text::concat(
                        &crate::text::concat3("\t\t\t\t\t\"", id, "\"\n\t\t\t\t\t{\n\t\t\t\t\t\t\"DecryptionKey\"\t\t\""),
                        &crate::text::concat(key, "\"\n\t\t\t\t\t}\n"),
                    ));
                    assert(block@ =~= key_block(id@, key@));
                    splice(cs, e, e, &block)
                },
                None => cs.clone(),
            }
        },
    }
}

proof fn lemma_first_opening_bound(s: Seq<char>, q: Seq<char>, p: int)
    requires
        0 <= p,
    ensures
        first_opening(s, q, p) matches Some(e) ==> 0 <= e <= s.len(),
    decreases s.len() - p,
{
    if p < s.len() {
        if opening_at(s, p, q) is None {
            lemma_first_opening_bound(s, q, p + 1);
        }
    }
}

proof fn lemma_first_opening_found(s: Seq<char>, q: Seq<char>, k: int, p: int)
    requires
        0 <= k <= p < s.len(),
        opening_at(s, p, q) is Some,
    ensures
        first_opening(s, q, k) is Some,
    decreases p - k,
{
    if k < p && opening_at(s, k, q) is None {
        lemma_first_opening_found(s, q, k + 1, p);
    }
}

/// An empty `depots` section added after the `Steam` opening is found again.
proof fn lemma_depots_added(t: Seq<char>, e: int)
    requires
        0 <= e <= t.len(),
    ensures
        first_opening(t.take(e) + depots_block() + t.skip(e), quoted("depots"@), 0) is Some,
{
    reveal_strlit("\t\t\t\t\"depots\"\n\t\t\t\t{\n\t\t\t\t}\n");
    reveal_strlit("\"");
    reveal_strlit("depots");
    let u = t.take(e) + depots_block() + t.skip(e);
    let q = quoted("depots"@);
    assert(q.len() == 8);
    assert forall|k: int| 0 <= k < 22 implies #[trigger] u[e + k] == depots_block()[k] by {}
    assert(u.subrange(e + 4, e + 12) =~= q);
    assert(u[e + 12] == '\n' && u[e + 13] == '\t' && u[e + 16] == '\t' && u[e + 17] == '{' && u[e + 18] == '\n');
    reveal_with_fuel(skip_ws, 7);
    assert(skip_ws(u, e + 17) == e + 17);
    assert(skip_ws(u, e + 16) == e + 17);
    assert(skip_ws(u, e + 15) == e + 17);
    assert(skip_ws(u, e + 14) == e + 17);
    assert(skip_ws(u, e + 13) == e + 17);
    assert(skip_ws(u, e + 12) == e + 17);
    assert(skip_blanks(u, e + 18) == e + 18);
    assert(opening_at(u, e + 4, q) == Some(e + 19));
    lemma_first_opening_found(u, q, 0, e + 4);
}

/// Puts depot keys into the text of `config.vdf` without rewriting the rest:
/// an existing `"<id>" { "DecryptionKey" "<hex>"` gets its hex replaced in
/// place; any other key's block goes right after the `"depots" {` line, or
/// after a `depots` section first added under `"Steam" {`. Every other
/// character is kept. With the new text comes the number of keys put in; the
/// keys go in in the order given.
pub fn inject_keys_text(content: &str, vdf_keys: &Vec<(String, String)>) -> (r: Result<(String, usize), TextInjectError>)
    ensures
        match injected_text(content@, pairs_view(vdf_keys@)) {
            Ok(t) => r matches Ok((s, n)) && s@ == t && n == vdf_keys.len(),
            Err(e) => r == Err::<(String, usize), TextInjectError>(e),
        },
        r is Err <==> (vdf_keys.len() > 0 && first_opening(content@, quoted("depots"@), 0) is None
            && first_opening(content@, quoted("Steam"@), 0) is None),
        r is Err ==> r == Err::<(String, usize), TextInjectError>(TextInjectError::MissingSteamSection),
{
    if vdf_keys.len() == 0 {
        return Ok((content.to_string(), 0));
    }
    let cs = chars_of(content);
    let dq = quoted_chars("depots");
    let sq = quoted_chars("Steam");
    let mut t: Vec<char> = match first_opening_in(&cs, &dq) {
        Some(_) => cs,
        None => match first_opening_in(&cs, &sq) {
            Some(e) => {
                proof { lemma_first_opening_bound(cs@, sq@, 0); }
                let block = chars_of("\t\t\t\t\"depots\"\n\t\t\t\t{\n\t\t\t\t}\n");
                proof { reveal_strlit("\t\t\t\t\"depots\"\n\t\t\t\t{\n\t\t\t\t}\n"); }
                assert(block@ == depots_block());
                let u = splice(&cs, e, e, &block);
                proof { lemma_depots_added(cs@, e as int); }
                if first_opening_in(&u, &dq).is_none() {
                    return Err(TextInjectError::DepotsNotCreated);
                }
                u
            },
            None => return Err(TextInjectError::MissingSteamSection),
        },
    };
    let ghost start = t@;
    let ghost kv = pairs_view(vdf_keys@);
    let mut i: usize = 0;
    while i < vdf_keys.len()
        invariant
            i <= vdf_keys.len(),
            kv == pairs_view(vdf_keys@),
            t@ == put_keys_text(start, kv.take(i as int)),
        decreases vdf_keys.len() - i,
    {
        proof {
            assert(kv.take(i as int + 1).drop_last() =~= kv.take(i as int));
            assert(kv.take(i as int + 1).last() == (vdf_keys@[i as int].0@, vdf_keys@[i as int].1@));
        }
        t = put_key_in(&t, &vdf_keys[i].0, &vdf_keys[i].1);
        i = i + 1;
    }
    assert(kv.take(vdf_keys.len() as int) =~= kv);
    Ok((string_of(&t), vdf_keys.len()))
}

/// Removes the key blocks of the depots from the text of `config.vdf`
/// without rewriting the rest: for each id in turn, its leftmost whole block
/// (indentation, entry, closing brace and the line breaks after it) goes.
/// With the new text comes the number of ids whose block was found.
pub fn remove_keys_text(content: &str, depot_ids: &Vec<String>) -> (r: (String, usize))
    ensures
        r.0@ == removed_keys_text(content@, strings_view(depot_ids@)).0,
        r.1 == removed_keys_text(content@, strings_view(depot_ids@)).1,
{
    let mut t = chars_of(content);
    let mut n: usize = 0;
    let ghost iv = strings_view(depot_ids@);
    let mut i: usize = 0;
    while i < depot_ids.len()
        invariant
            i <= depot_ids.len(),
            iv == strings_view(depot_ids@),
            n <= i,
            (t@, n as nat) == removed_keys_text(content@, iv.take(i as int)),
        decreases depot_ids.len() - i,
    {
        proof {
            assert(iv.take(i as int + 1).drop_last() =~= iv.take(i as int));
            assert(iv.take(i as int + 1).last() == depot_ids@[i as int]@);
        }
        let q = quoted_chars(&depot_ids[i]);
        match first_block_in(&t, &q) {
            Some((p, e)) => {
                let empty: Vec<char> = Vec::new();
                let u = splice(&t, p, e, &empty);
                assert(u@ =~= t@.take(p as int) + t@.skip(e as int));
                t = u;
                n = n + 1;
            },
            None => {},
        }
        i = i + 1;
    }
    assert(iv.take(depot_ids.len() as int) =~= iv);
    (string_of(&t), n)
}


proof fn lemma_skip_ws_run(s: Seq<char>, i: int, j: int)
    requires
        0 <= i <= j <= s.len(),
        forall|k: int| i <= k < j ==> is_white_space(#[trigger] s[k]),
        j == s.len() || !is_white_space(s[j]),
    ensures
        skip_ws(s, i) == j,
    decreases j - i,
{
    if i < j {
        lemma_skip_ws_run(s, i + 1, j);
    }
}

proof fn lemma_skip_ws_props(s: Seq<char>, i: int)
    requires
        0 <= i <= s.len(),
    ensures
        i <= skip_ws(s, i) <= s.len(),
        forall|k: int| i <= k < skip_ws(s, i) ==> is_white_space(#[trigger] s[k]),
        skip_ws(s, i) == s.len() || !is_white_space(s[skip_ws(s, i)]),
    decreases s.len() - i,
{
    if i < s.len() && is_white_space(s[i]) {
        lemma_skip_ws_props(s, i + 1);
    }
}

proof fn lemma_skip_blanks_run(s: Seq<char>, i: int, j: int)
    requires
        0 <= i <= j <= s.len(),
        forall|k: int| i <= k < j ==> is_blank(#[trigger] s[k]),
        j == s.len() || !is_blank(s[j]),
    ensures
        skip_blanks(s, i) == j,
    decreases j - i,
{
    if i < j {
        lemma_skip_blanks_run(s, i + 1, j);
    }
}

proof fn lemma_skip_blanks_stop(s: Seq<char>, p: int, k: int)
    requires
        0 <= p <= k < s.len(),
        !is_blank(s[k]),
    ensures
        p <= skip_blanks(s, p) <= k,
    decreases k - p,
{
    if p < k && is_blank(s[p]) {
        lemma_skip_blanks_stop(s, p + 1, k);
    }
}

proof fn lemma_skip_hex_run(s: Seq<char>, i: int, j: int)
    requires
        0 <= i <= j <= s.len(),
        forall|k: int| i <= k < j ==> is_hex(#[trigger] s[k]),
        j == s.len() || !is_hex(s[j]),
    ensures
        skip_hex(s, i) == j,
    decreases j - i,
{
    if i < j {
        lemma_skip_hex_run(s, i + 1, j);
    }
}

proof fn lemma_last_newline_single(s: Seq<char>, a: int, b: int)
    requires
        0 <= a < b <= s.len(),
        s[a] == '\n',
        forall|k: int| a < k < b ==> s[k] != '\n',
    ensures
        last_newline(s, a, b) == a,
    decreases b - a,
{
    if b - 1 > a {
        lemma_last_newline_single(s, a, b - 1);
    }
}

/// A section opening ends with a line break.
proof fn lemma_opening_ends_line(s: Seq<char>, q: Seq<char>, p: int)
    requires
        0 <= p,
    ensures
        first_opening(s, q, p) matches Some(e) ==> 1 <= e <= s.len() && s[e - 1] == '\n',
    decreases s.len() - p,
{
    if p < s.len() && opening_at(s, p, q) is None {
        lemma_opening_ends_line(s, q, p + 1);
    }
}

proof fn lemma_no_key_value(s: Seq<char>, q: Seq<char>, p: int)
    requires
        forall|i: int| !lit_at(s, i, q),
    ensures
        first_key_value(s, q, p) is None,
    decreases s.len() - p,
{
    if 0 <= p < s.len() {
        assert(!lit_at(s, p, q));
        lemma_no_key_value(s, q, p + 1);
    }
}

proof fn lemma_first_block_reaches(s: Seq<char>, q: Seq<char>, p: int, e: int, x: int)
    requires
        0 <= p <= e < s.len(),
        forall|k: int| p <= k < e ==> #[trigger] block_at(s, k, q) is None,
        block_at(s, e, q) == Some(x),
    ensures
        first_block(s, q, p) == Some((e, x)),
    decreases e - p,
{
    if p < e {
        lemma_first_block_reaches(s, q, p + 1, e, x);
    }
}

/// The characters of a new key block, by position.
proof fn lemma_key_block_chars(id: Seq<char>, key: Seq<char>)
    ensures
        ({
            let kb = key_block(id, key);
            let n = id.len() as int;
            let m = key.len() as int;
            &&& kb.len() == n + m + 48
            &&& forall|k: int| 0 <= k < 5 ==> #[trigger] kb[k] == '\t'
            &&& kb[5] == '"'
            &&& kb.subrange(5, 7 + n) == quoted(id)
            &&& kb[6 + n] == '"' && kb[7 + n] == '\n'
            &&& forall|k: int| 8 + n <= k < 13 + n ==> #[trigger] kb[k] == '\t'
            &&& kb[13 + n] == '{' && kb[14 + n] == '\n'
            &&& forall|k: int| 15 + n <= k < 21 + n ==> #[trigger] kb[k] == '\t'
            &&& kb.subrange(21 + n, 36 + n) == "\"DecryptionKey\""@
            &&& kb[36 + n] == '\t' && kb[37 + n] == '\t' && kb[38 + n] == '"'
            &&& forall|k: int| 0 <= k < m ==> #[trigger] kb[39 + n + k] == key[k]
            &&& kb[39 + n + m] == '"' && kb[40 + n + m] == '\n'
            &&& forall|k: int| 41 + n + m <= k < 46 + n + m ==> #[trigger] kb[k] == '\t'
            &&& kb[46 + n + m] == '}' && kb[47 + n + m] == '\n'
        }),
{
    reveal_strlit("\t\t\t\t\t\"");
    reveal_strlit("\"\n\t\t\t\t\t{\n\t\t\t\t\t\t\"DecryptionKey\"\t\t\"");
    reveal_strlit("\"\n\t\t\t\t\t}\n");
    reveal_strlit("\"DecryptionKey\"");
    reveal_strlit("\"");
    let kb = key_block(id, key);
    let n = id.len() as int;
    let a = "\t\t\t\t\t\""@;
    let mid = "\"\n\t\t\t\t\t{\n\t\t\t\t\t\t\"DecryptionKey\"\t\t\""@;
    let tail = "\"\n\t\t\t\t\t}\n"@;
    assert(kb == a + id + mid + key + tail);
    assert(kb.subrange(5, 7 + n) =~= quoted(id));
    assert(kb.subrange(21 + n, 36 + n) =~= "\"DecryptionKey\""@);
}

proof fn lemma_spliced_chars(t: Seq<char>, e: int, kb: Seq<char>)
    requires
        0 <= e <= t.len(),
    ensures
        ({
            let u = t.take(e) + kb + t.skip(e);
            &&& u.len() == t.len() + kb.len()
            &&& forall|k: int| 0 <= k < kb.len() ==> #[trigger] u[e + k] == kb[k]
            &&& forall|k: int| 0 <= k < e ==> #[trigger] u[k] == t[k]
            &&& forall|k: int| e <= k < t.len() ==> #[trigger] u[k + kb.len()] == t[k]
        }),
{
    let u = t.take(e) + kb + t.skip(e);
    assert forall|k: int| 0 <= k < kb.len() implies #[trigger] u[e + k] == kb[k] by {}
    assert forall|k: int| 0 <= k < e implies #[trigger] u[k] == t[k] by {}
    assert forall|k: int| e <= k < t.len() implies #[trigger] u[k + kb.len()] == t[k] by {}
}

/// The entry of a new key block is found where it was put.
#[verifier::rlimit(40)]
proof fn lemma_injected_entry(t: Seq<char>, e: int, id: Seq<char>, key: Seq<char>)
    requires
        0 <= e <= t.len(),
        forall|k: int| 0 <= k < key.len() ==> is_hex(#[trigger] key[k]),
    ensures
        ({
            let u = t.take(e) + key_block(id, key) + t.skip(e);
            let n = id.len() as int;
            let m = key.len() as int;
            &&& skip_blanks(u, e) == e + 5
            &&& key_value_at(u, e + 5, quoted(id)) == Some((e + 39 + n, e + 39 + n + m))
        }),
{
    let kb = key_block(id, key);
    let u = t.take(e) + kb + t.skip(e);
    let q = quoted(id);
    lemma_key_block_chars(id, key);
    lemma_spliced_chars(t, e, kb);
    let n = id.len() as int;
    let m = key.len() as int;
    reveal_strlit("\"");
    reveal_strlit("\"DecryptionKey\"");
    assert(q.len() == n + 2);
    assert forall|k: int| e <= k < e + 5 implies is_blank(#[trigger] u[k]) by {
        assert(u[e + (k - e)] == kb[k - e]);
    }
    assert(u[e + 5] == kb[5]);
    lemma_skip_blanks_run(u, e, e + 5);
    assert(u.subrange(e + 5, e + 7 + n) =~= kb.subrange(5, 7 + n));
    assert(lit_at(u, e + 5, q));
    assert forall|k: int| e + 7 + n <= k < e + 13 + n implies is_white_space(#[trigger] u[k]) by {
        assert(u[e + (k - e)] == kb[k - e]);
    }
    assert(u[e + (13 + n)] == kb[13 + n]);
    lemma_skip_ws_run(u, e + 7 + n, e + 13 + n);
    assert forall|k: int| e + 14 + n <= k < e + 21 + n implies is_white_space(#[trigger] u[k]) by {
        assert(u[e + (k - e)] == kb[k - e]);
    }
    assert(kb[21 + n] == kb.subrange(21 + n, 36 + n)[0]);
    assert(u[e + (21 + n)] == kb[21 + n]);
    lemma_skip_ws_run(u, e + 14 + n, e + 21 + n);
    assert(u[e + (14 + n)] == kb[14 + n]);
    assert(has_newline(u, e + 14 + n, e + 21 + n));
    assert(u.subrange(e + 21 + n, e + 36 + n) =~= kb.subrange(21 + n, 36 + n));
    assert(lit_at(u, e + 21 + n, "\"DecryptionKey\""@));
    assert(u[e + (36 + n)] == kb[36 + n] && u[e + (37 + n)] == kb[37 + n] && u[e + (38 + n)] == kb[38 + n]);
    lemma_skip_ws_run(u, e + 36 + n, e + 38 + n);
    assert forall|k: int| e + 39 + n <= k < e + 39 + n + m implies is_hex(#[trigger] u[k]) by {
        assert(u[e + (39 + n + (k - e - 39 - n))] == kb[39 + n + (k - e - 39 - n)]);
    }
    assert(u[e + (39 + n + m)] == kb[39 + n + m]);
    lemma_skip_hex_run(u, e + 39 + n, e + 39 + n + m);
}

/// A new key block is found whole where it was put: its end is where the
/// rest of the text starts again.
#[verifier::rlimit(40)]
proof fn lemma_injected_block(t: Seq<char>, e: int, id: Seq<char>, key: Seq<char>)
    requires
        0 <= e <= t.len(),
        !has_newline(t, e, skip_ws(t, e)),
        forall|k: int| 0 <= k < key.len() ==> is_hex(#[trigger] key[k]),
    ensures
        block_at(t.take(e) + key_block(id, key) + t.skip(e), e, quoted(id)) == Some(e + key_block(id, key).len()),
{
    let kb = key_block(id, key);
    let u = t.take(e) + kb + t.skip(e);
    lemma_key_block_chars(id, key);
    lemma_spliced_chars(t, e, kb);
    lemma_injected_entry(t, e, id, key);
    let n = id.len() as int;
    let m = key.len() as int;
    let l = kb.len() as int;
    assert forall|k: int| e + 40 + n + m <= k < e + 46 + n + m implies is_white_space(#[trigger] u[k]) by {
        assert(u[e + (k - e)] == kb[k - e]);
    }
    assert(u[e + (46 + n + m)] == kb[46 + n + m]);
    assert(u[e + (40 + n + m)] == kb[40 + n + m]);
    lemma_skip_ws_run(u, e + 40 + n + m, e + 46 + n + m);
    assert(has_newline(u, e + 40 + n + m, e + 46 + n + m));
    lemma_skip_ws_props(t, e);
    let w = skip_ws(t, e);
    assert(u[e + (47 + n + m)] == kb[47 + n + m]);
    assert forall|k: int| e + 47 + n + m <= k < w + l implies is_white_space(#[trigger] u[k]) by {
        if k > e + 47 + n + m {
            assert(u[(k - l) + l] == t[k - l]);
        }
    }
    if w < t.len() {
        assert(u[w + l] == t[w]);
    }
    lemma_skip_ws_run(u, e + 47 + n + m, w + l);
    assert(has_newline(u, e + 47 + n + m, w + l));
    assert forall|k: int| e + 47 + n + m < k < w + l implies u[k] != '\n' by {
        assert(u[(k - l) + l] == t[k - l]);
        if t[k - l] == '\n' {
            assert(has_newline(t, e, w));
        }
    }
    lemma_last_newline_single(u, e + 47 + n + m, w + l);
}

/// No block of the depot starts before the place a new block was put, when
/// the text does not name the depot and that place follows a line break.
proof fn lemma_no_block_before(t: Seq<char>, e: int, id: Seq<char>, key: Seq<char>)
    requires
        1 <= e <= t.len(),
        t[e - 1] == '\n',
        forall|i: int| !lit_at(t, i, quoted(id)),
        forall|k: int| 0 <= k < id.len() ==> #[trigger] id[k] != '\n',
    ensures
        forall|p: int| 0 <= p < e ==> #[trigger] block_at(t.take(e) + key_block(id, key) + t.skip(e), p, quoted(id)) is None,
{
    let kb = key_block(id, key);
    let u = t.take(e) + kb + t.skip(e);
    let q = quoted(id);
    let n = id.len() as int;
    lemma_spliced_chars(t, e, kb);
    reveal_strlit("\"");
    assert(q.len() == n + 2);
    assert(u[e - 1] == t[e - 1]);
    assert forall|p: int| 0 <= p < e implies #[trigger] block_at(u, p, q) is None by {
        lemma_skip_blanks_stop(u, p, e - 1);
        let p1 = skip_blanks(u, p);
        if lit_at(u, p1, q) {
            if p1 + n + 2 <= e {
                assert(t.subrange(p1, p1 + n + 2) =~= u.subrange(p1, p1 + n + 2));
                assert(lit_at(t, p1, q));
            } else {
                let j = e - 1 - p1;
                assert(u.subrange(p1, p1 + n + 2)[j] == u[e - 1]);
                assert(q[j] == '\n');
                if j == 0 || j == n + 1 {
                    assert(q[j] == '"');
                } else {
                    assert(q[j] == id[j - 1]);
                }
            }
        }
    }
}

/// Putting one depot's key into a `config.vdf` text that has a `depots`
/// section and does not name the depot, then taking that depot's key out,
/// gives the text back, with one block removed. The depot's id holds no line
/// break, the key is hex digits, and the `depots` opening is not followed by
/// blank lines (which the removal would take along).
pub proof fn law_inject_then_remove(t: Seq<char>, id: Seq<char>, key: Seq<char>)
    requires
        first_opening(t, quoted("depots"@), 0) is Some,
        !has_newline(t, first_opening(t, quoted("depots"@), 0)->0,
            skip_ws(t, first_opening(t, quoted("depots"@), 0)->0)),
        forall|i: int| !lit_at(t, i, quoted(id)),
        forall|k: int| 0 <= k < id.len() ==> #[trigger] id[k] != '\n',
        forall|k: int| 0 <= k < key.len() ==> is_hex(#[trigger] key[k]),
    ensures
        match injected_text(t, seq![(id, key)]) {
            Ok(u) => removed_keys_text(u, seq![id]) == (t, 1nat),
            Err(_) => false,
        },
{
    let q = quoted(id);
    let dq = quoted("depots"@);
    let e = first_opening(t, dq, 0)->0;
    lemma_opening_ends_line(t, dq, 0);
    lemma_no_key_value(t, q, 0);
    let keys = seq![(id, key)];
    assert(keys.drop_last() =~= Seq::<(Seq<char>, Seq<char>)>::empty());
    assert(keys.last() == (id, key));
    assert(put_keys_text(t, keys.drop_last()) == t);
    assert(put_keys_text(t, keys) == put_key_text(t, id, key));
    let kb = key_block(id, key);
    let u = t.take(e) + kb + t.skip(e);
    assert(injected_text(t, keys) == Ok::<Seq<char>, TextInjectError>(u));
    lemma_key_block_chars(id, key);
    lemma_injected_block(t, e, id, key);
    lemma_no_block_before(t, e, id, key);
    lemma_first_block_reaches(u, q, 0, e, e + kb.len());
    let ids = seq![id];
    assert(ids.drop_last() =~= Seq::<Seq<char>>::empty());
    assert(ids.last() == id);
    assert(removed_keys_text(u, ids.drop_last()) == (u, 0nat));
    assert(u.take(e) + u.skip(e + kb.len()) =~= t);
}


/// One or more ASCII digits.
pub open spec fn digit_text(x: Seq<char>) -> bool {
    x.len() > 0 && forall|k: int| 0 <= k < x.len() ==> '0' <= #[trigger] x[k] && x[k] <= '9'
}

/// Hex digits only.
pub open spec fn hex_text(x: Seq<char>) -> bool {
    forall|k: int| 0 <= k < x.len() ==> is_hex(#[trigger] x[k])
}

/// Inside a key block, a quoted run of digits is the block's id or its key.
#[verifier::rlimit(60)]
proof fn lemma_quoted_in_block(id: Seq<char>, key: Seq<char>, rest: Seq<char>, o: int, x: Seq<char>)
    requires
        digit_text(id),
        hex_text(key),
        digit_text(x),
        0 <= o < key_block(id, key).len(),
        lit_at(key_block(id, key) + rest, o, quoted(x)),
    ensures
        x == id || x == key,
{
    let b = key_block(id, key);
    let w = b + rest;
    let n = id.len() as int;
    let m = key.len() as int;
    let l = x.len() as int;
    lemma_key_block_chars(id, key);
    reveal_strlit("\"");
    reveal_strlit("\"DecryptionKey\"");
    let q = quoted(x);
    assert(q.len() == l + 2);
    assert(w.subrange(o, o + l + 2) == q);
    assert(w[o] == q[0]);
    assert(q[0] == '"');
    assert(w[o + 1] == q[1] && q[1] == x[0]);
    assert(w[o + l + 1] == q[l + 1] && q[l + 1] == '"');
    assert forall|k: int| 0 <= k < l implies #[trigger] w[o + 1 + k] == x[k] by {
        assert(w[o + 1 + k] == w.subrange(o, o + l + 2)[1 + k]);
        assert(q[1 + k] == x[k]);
    }
    assert forall|k: int| 0 <= k < b.len() implies #[trigger] w[k] == b[k] by {}
    let dk = "\"DecryptionKey\""@;
    assert forall|k: int| 21 + n <= k < 36 + n implies #[trigger] b[k] == dk[k - 21 - n] by {
        assert(b.subrange(21 + n, 36 + n)[k - 21 - n] == b[k]);
    }
    assert(b.len() == n + m + 48);
    if o < 5 {
        assert(b[o] == '\t');
    } else if o == 5 {
        if l < n {
            assert(w[o + l + 1] == b[6 + l]);
            assert(b[6 + l] == b.subrange(5, 7 + n)[1 + l]);
            assert(quoted(id)[1 + l] == id[l]);
        } else if l > n {
            assert(w[o + 1 + n] == x[n]);
            assert(w[o + 1 + n] == b[6 + n]);
        } else {
            assert forall|k: int| 0 <= k < l implies x[k] == id[k] by {
                assert(w[o + 1 + k] == x[k]);
                assert(b[6 + k] == b.subrange(5, 7 + n)[1 + k]);
                assert(quoted(id)[1 + k] == id[k]);
            }
            assert(x =~= id);
        }
    } else if o < 6 + n {
        assert(b[o] == b.subrange(5, 7 + n)[o - 5]);
        assert(quoted(id)[o - 5] == id[o - 6]);
    } else if o == 6 + n {
        assert(w[o + 1] == b[7 + n]);
    } else if o == 7 + n {
    } else if o < 13 + n {
        assert(b[o] == '\t');
    } else if o == 13 + n || o == 14 + n {
    } else if o < 21 + n {
        assert(b[o] == '\t');
    } else if o == 21 + n {
        assert(w[o + 1] == b[22 + n]);
        assert(b[22 + n] == dk[1]);
    } else if o < 35 + n {
        assert(b[o] == dk[o - 21 - n]);
    } else if o == 35 + n {
        assert(w[o + 1] == b[36 + n]);
    } else if o == 36 + n || o == 37 + n {
    } else if o == 38 + n {
        if l < m {
            assert(w[o + l + 1] == b[39 + n + l]);
            assert(is_hex(key[l]));
        } else if l > m {
            assert(w[o + 1 + m] == x[m]);
            assert(w[o + 1 + m] == b[39 + n + m]);
        } else {
            assert forall|k: int| 0 <= k < l implies x[k] == key[k] by {
                assert(w[o + 1 + k] == x[k]);
                assert(b[39 + n + k] == key[k]);
            }
            assert(x =~= key);
        }
    } else if o < 39 + n + m {
        assert(b[39 + n + (o - 39 - n)] == key[o - 39 - n]);
        assert(is_hex(key[o - 39 - n]));
    } else if o == 39 + n + m {
        assert(w[o + 1] == b[40 + n + m]);
    } else if o == 40 + n + m {
    } else if o < 46 + n + m {
        assert(b[o] == '\t');
    } else {
    }
}


/// The key blocks that injecting the keys in order leaves after the `depots`
/// opening: each new one goes first.
pub open spec fn blocks_text(keys: Seq<(Seq<char>, Seq<char>)>) -> Seq<char>
    decreases keys.len(),
{
    if keys.len() == 0 {
        Seq::empty()
    } else {
        key_block(keys.last().0, keys.last().1) + blocks_text(keys.drop_last())
    }
}

/// Keys whose ids are digits, whose keys are hex, and no id equal to a key.
pub open spec fn plain_keys(keys: Seq<(Seq<char>, Seq<char>)>) -> bool {
    &&& forall|i: int| 0 <= i < keys.len() ==> digit_text(#[trigger] keys[i].0) && hex_text(keys[i].1)
    &&& forall|i: int, j: int| 0 <= i < keys.len() && 0 <= j < keys.len() ==> #[trigger] keys[i].0 != #[trigger] keys[j].1
}

/// A quoted run of digits inside the blocks is one of their ids or keys.
proof fn lemma_quoted_in_blocks(keys: Seq<(Seq<char>, Seq<char>)>, rest: Seq<char>, o: int, x: Seq<char>)
    requires
        forall|i: int| 0 <= i < keys.len() ==> digit_text(#[trigger] keys[i].0) && hex_text(keys[i].1),
        digit_text(x),
        0 <= o < blocks_text(keys).len(),
        lit_at(blocks_text(keys) + rest, o, quoted(x)),
    ensures
        exists|j: int| 0 <= j < keys.len() && (x == #[trigger] keys[j].0 || x == keys[j].1),
    decreases keys.len(),
{
    let k = keys.last();
    let b = key_block(k.0, k.1);
    let tail = blocks_text(keys.drop_last());
    assert(blocks_text(keys) + rest =~= b + (tail + rest));
    assert(digit_text(keys[keys.len() - 1].0));
    if o < b.len() {
        lemma_quoted_in_block(k.0, k.1, tail + rest, o, x);
        assert(x == keys[keys.len() - 1].0 || x == keys[keys.len() - 1].1);
    } else {
        let q = quoted(x);
        assert((tail + rest).subrange(o - b.len(), o - b.len() + q.len()) =~= (b + (tail + rest)).subrange(o, o + q.len()));
        assert forall|i: int| 0 <= i < keys.drop_last().len() implies digit_text(#[trigger] keys.drop_last()[i].0)
            && hex_text(keys.drop_last()[i].1) by {
            assert(keys.drop_last()[i] == keys[i]);
        }
        lemma_quoted_in_blocks(keys.drop_last(), rest, o - b.len(), x);
        let j = choose|j: int| 0 <= j < keys.drop_last().len() && (x == #[trigger] keys.drop_last()[j].0 || x == keys.drop_last()[j].1);
        assert(keys.drop_last()[j] == keys[j]);
    }
}

/// Blocks end with a line break.
proof fn lemma_blocks_end(keys: Seq<(Seq<char>, Seq<char>)>)
    requires
        keys.len() > 0,
    ensures
        blocks_text(keys).len() > 0,
        blocks_text(keys)[blocks_text(keys).len() - 1] == '\n',
    decreases keys.len(),
{
    let k = keys.last();
    lemma_key_block_chars(k.0, k.1);
    let b = key_block(k.0, k.1);
    let tail = blocks_text(keys.drop_last());
    if keys.len() > 1 {
        lemma_blocks_end(keys.drop_last());
        assert((b + tail)[b.len() + tail.len() - 1] == tail[tail.len() - 1]);
    } else {
        assert(tail.len() == 0);
        assert((b + tail)[b.len() - 1] == b[b.len() - 1]);
    }
}

/// The first key's block is the last of the blocks.
proof fn lemma_blocks_first_last(keys: Seq<(Seq<char>, Seq<char>)>)
    requires
        keys.len() > 0,
    ensures
        blocks_text(keys) == blocks_text(keys.drop_first()) + key_block(keys[0].0, keys[0].1),
    decreases keys.len(),
{
    if keys.len() == 1 {
        assert(keys.drop_first().len() == 0);
        assert(keys.drop_last().len() == 0);
        assert(blocks_text(keys.drop_last()) == Seq::<char>::empty());
        assert(blocks_text(keys.drop_first()) == Seq::<char>::empty());
        assert(keys.last() == keys[0]);
        assert(blocks_text(keys) =~= key_block(keys[0].0, keys[0].1));
        assert(blocks_text(keys.drop_first()) + key_block(keys[0].0, keys[0].1) =~= key_block(keys[0].0, keys[0].1));
    } else {
        lemma_blocks_first_last(keys.drop_last());
        assert(keys.drop_last().drop_first() =~= keys.drop_first().drop_last());
        assert(keys.drop_first().last() == keys.last());
        assert(keys.drop_last()[0] == keys[0]);
        let kl = keys.last();
        assert(blocks_text(keys.drop_first()) == key_block(kl.0, kl.1) + blocks_text(keys.drop_first().drop_last()));
        assert(blocks_text(keys) =~= blocks_text(keys.drop_first()) + key_block(keys[0].0, keys[0].1));
    }
}

/// A text with blocks put after a line break at `e` names none of a depot
/// that the text itself does not name and that the blocks hold neither as id
/// nor as key.
proof fn lemma_no_quoted_id(t: Seq<char>, e: int, keys: Seq<(Seq<char>, Seq<char>)>, x: Seq<char>)
    requires
        1 <= e <= t.len(),
        t[e - 1] == '\n',
        forall|i: int| 0 <= i < keys.len() ==> digit_text(#[trigger] keys[i].0) && hex_text(keys[i].1),
        digit_text(x),
        forall|j: int| 0 <= j < keys.len() ==> x != #[trigger] keys[j].0 && x != keys[j].1,
        forall|i: int| !lit_at(t, i, quoted(x)),
    ensures
        forall|i: int| !lit_at(t.take(e) + blocks_text(keys) + t.skip(e), i, quoted(x)),
{
    let bl = blocks_text(keys);
    let u = t.take(e) + bl + t.skip(e);
    let q = quoted(x);
    let l = q.len() as int;
    reveal_strlit("\"");
    assert(l == x.len() + 2);
    assert forall|i: int| !lit_at(u, i, q) by {
        if lit_at(u, i, q) {
            if i + l <= e {
                assert(t.subrange(i, i + l) =~= u.subrange(i, i + l));
                assert(lit_at(t, i, q));
            } else if i < e {
                let j = e - 1 - i;
                assert(u[e - 1] == t[e - 1]);
                assert(u.subrange(i, i + l)[j] == u[e - 1]);
                if j == 0 || j == l - 1 {
                    assert(q[j] == '"');
                } else {
                    assert(q[j] == x[j - 1]);
                }
            } else if i < e + bl.len() {
                let w = bl + t.skip(e);
                assert(w.subrange(i - e, i - e + l) =~= u.subrange(i, i + l));
                lemma_quoted_in_blocks(keys, t.skip(e), i - e, x);
                let j = choose|j: int| 0 <= j < keys.len() && (x == #[trigger] keys[j].0 || x == keys[j].1);
                assert(x != keys[j].0 && x != keys[j].1);
            } else {
                let i2 = i - bl.len();
                assert(t.subrange(i2, i2 + l) =~= u.subrange(i, i + l));
                assert(lit_at(t, i2, q));
            }
        }
    }
}


proof fn lemma_skip_blanks_props(s: Seq<char>, i: int)
    requires
        0 <= i <= s.len(),
    ensures
        i <= skip_blanks(s, i) <= s.len(),
        forall|k: int| i <= k < skip_blanks(s, i) ==> is_blank(#[trigger] s[k]),
        skip_blanks(s, i) == s.len() || !is_blank(s[skip_blanks(s, i)]),
    decreases s.len() - i,
{
    if i < s.len() && is_blank(s[i]) {
        lemma_skip_blanks_props(s, i + 1);
    }
}

proof fn lemma_first_opening_witness(s: Seq<char>, q: Seq<char>, p: int)
    requires
        0 <= p,
    ensures
        first_opening(s, q, p) matches Some(e) ==> exists|p0: int| p <= p0 < s.len()
            && #[trigger] opening_at(s, p0, q) == Some(e)
            && forall|k: int| p <= k < p0 ==> #[trigger] opening_at(s, k, q) is None,
    decreases s.len() - p,
{
    if p < s.len() {
        if opening_at(s, p, q) is None {
            lemma_first_opening_witness(s, q, p + 1);
            if first_opening(s, q, p) is Some {
                let p0 = choose|p0: int| p + 1 <= p0 < s.len() && #[trigger] opening_at(s, p0, q) == first_opening(s, q, p)
                    && forall|k: int| p + 1 <= k < p0 ==> #[trigger] opening_at(s, k, q) is None;
                assert(forall|k: int| p <= k < p0 ==> #[trigger] opening_at(s, k, q) is None);
            }
        }
    }
}

proof fn lemma_first_opening_at(s: Seq<char>, q: Seq<char>, p: int, p0: int, e: int)
    requires
        0 <= p <= p0 < s.len(),
        forall|k: int| p <= k < p0 ==> #[trigger] opening_at(s, k, q) is None,
        opening_at(s, p0, q) == Some(e),
    ensures
        first_opening(s, q, p) == Some(e),
    decreases p0 - p,
{
    if p < p0 {
        lemma_first_opening_at(s, q, p + 1, p0, e);
    }
}

/// Blocks put after a line break at `e` leave each opening that starts before
/// it as it was, and make none.
#[verifier::rlimit(40)]
proof fn lemma_opening_kept(t: Seq<char>, e: int, w: Seq<char>, q: Seq<char>, p: int)
    requires
        1 <= e <= t.len(),
        t[e - 1] == '\n',
        w.len() >= 6,
        forall|k: int| 0 <= k < 5 ==> #[trigger] w[k] == '\t',
        w[5] == '"',
        forall|k: int| 0 <= k < q.len() ==> #[trigger] q[k] != '\n',
        0 <= p < e,
    ensures
        opening_at(t.take(e) + w + t.skip(e), p, q) is Some
            ==> opening_at(t.take(e) + w + t.skip(e), p, q) == opening_at(t, p, q),
        opening_at(t, p, q) is Some && opening_at(t, p, q)->0 <= e
            ==> opening_at(t.take(e) + w + t.skip(e), p, q) == opening_at(t, p, q),
{
    let u = t.take(e) + w + t.skip(e);
    assert forall|k: int| 0 <= k < e implies #[trigger] u[k] == t[k] by {}
    assert forall|k: int| 0 <= k < w.len() implies #[trigger] u[e + k] == w[k] by {}
    if lit_at(u, p, q) || lit_at(t, p, q) {
        let a0 = p + q.len();
        if a0 > e - 1 {
            let j = e - 1 - p;
            if lit_at(u, p, q) {
                assert(u.subrange(p, a0)[j] == u[e - 1]);
            } else {
                assert(t.subrange(p, a0)[j] == t[e - 1]);
            }
        } else {
            assert(t.subrange(p, a0) =~= u.subrange(p, a0));
            lemma_skip_ws_props(t, a0);
            let kt = skip_ws(t, a0);
            if kt < e {
                lemma_skip_ws_run(u, a0, kt);
                if t[kt] == '{' {
                    lemma_skip_blanks_props(t, kt + 1);
                    lemma_skip_blanks_stop(t, kt + 1, e - 1);
                    let bl = skip_blanks(t, kt + 1);
                    lemma_skip_blanks_run(u, kt + 1, bl);
                    assert(u[bl] == t[bl]);
                    if bl + 1 < e {
                        assert(u[bl + 1] == t[bl + 1]);
                    }
                    assert(line_break_at(u, bl) == line_break_at(t, bl));
                }
            } else {
                if kt < t.len() && t[kt] == '{' {
                    lemma_skip_blanks_props(t, kt + 1);
                }
                assert forall|k: int| a0 <= k < e + 5 implies is_white_space(#[trigger] u[k]) by {
                    if k >= e {
                        assert(u[e + (k - e)] == w[k - e]);
                    }
                }
                assert(u[e + 5] == w[5]);
                lemma_skip_ws_run(u, a0, e + 5);
            }
        }
    }
}


/// Blocks put after the `depots` opening leave it the first one.
proof fn lemma_first_opening_kept(t: Seq<char>, e: int, keys: Seq<(Seq<char>, Seq<char>)>)
    requires
        first_opening(t, quoted("depots"@), 0) == Some(e),
        keys.len() > 0,
    ensures
        first_opening(t.take(e) + blocks_text(keys) + t.skip(e), quoted("depots"@), 0) == Some(e),
{
    let dq = quoted("depots"@);
    let w = blocks_text(keys);
    let u = t.take(e) + w + t.skip(e);
    reveal_strlit("\"");
    reveal_strlit("depots");
    assert(dq =~= seq!['"', 'd', 'e', 'p', 'o', 't', 's', '"']);
    lemma_opening_ends_line(t, dq, 0);
    lemma_first_opening_witness(t, dq, 0);
    let p0 = choose|p0: int| 0 <= p0 < t.len() && #[trigger] opening_at(t, p0, dq) == Some(e)
        && forall|k: int| 0 <= k < p0 ==> #[trigger] opening_at(t, k, dq) is None;
    let kl = keys.last();
    lemma_key_block_chars(kl.0, kl.1);
    let b = key_block(kl.0, kl.1);
    assert(w == b + blocks_text(keys.drop_last()));
    assert forall|k: int| 0 <= k < 5 implies #[trigger] w[k] == '\t' by {
        assert(w[k] == b[k]);
    }
    assert(w[5] == b[5]);
    // The opening ends after it starts.
    lemma_skip_ws_props(t, p0 + 8);
    let a = skip_ws(t, p0 + 8);
    lemma_skip_blanks_props(t, a + 1);
    assert(p0 < e);
    assert forall|k: int| 0 <= k < p0 implies #[trigger] opening_at(u, k, dq) is None by {
        lemma_opening_kept(t, e, w, dq, k);
    }
    lemma_opening_kept(t, e, w, dq, p0);
    lemma_first_opening_at(u, dq, 0, p0, e);
}

/// Keys injected in order into a text with a `depots` section that names
/// none of them: their blocks, newest first, right after the opening.
proof fn lemma_put_keys(t: Seq<char>, e: int, keys: Seq<(Seq<char>, Seq<char>)>)
    requires
        first_opening(t, quoted("depots"@), 0) == Some(e),
        plain_keys(keys),
        forall|i: int, j: int| 0 <= i < j < keys.len() ==> #[trigger] keys[i].0 != #[trigger] keys[j].0,
        forall|i: int, p: int| 0 <= i < keys.len() ==> !(#[trigger] lit_at(t, p, quoted(keys[i].0))),
    ensures
        put_keys_text(t, keys) == t.take(e) + blocks_text(keys) + t.skip(e),
    decreases keys.len(),
{
    let dq = quoted("depots"@);
    lemma_opening_ends_line(t, dq, 0);
    if keys.len() == 0 {
        assert(t.take(e) + blocks_text(keys) + t.skip(e) =~= t);
    } else {
        let dl = keys.drop_last();
        assert forall|i: int| 0 <= i < dl.len() implies dl[i] == keys[i] by {}
        assert(plain_keys(dl)) by {
            assert forall|i: int, j: int| 0 <= i < dl.len() && 0 <= j < dl.len() implies #[trigger] dl[i].0 != #[trigger] dl[j].1 by {
                assert(keys[i].0 != keys[j].1);
            }
            assert forall|i: int| 0 <= i < dl.len() implies digit_text(#[trigger] dl[i].0) && hex_text(dl[i].1) by {
                assert(digit_text(keys[i].0));
            }
        }
        assert forall|i: int, j: int| 0 <= i < j < dl.len() implies #[trigger] dl[i].0 != #[trigger] dl[j].0 by {
            assert(keys[i].0 != keys[j].0);
        }
        assert forall|i: int, p: int| 0 <= i < dl.len() implies !(#[trigger] lit_at(t, p, quoted(dl[i].0))) by {
            assert(!lit_at(t, p, quoted(keys[i].0)));
        }
        lemma_put_keys(t, e, dl);
        let n = keys.len() - 1;
        let (id, key) = keys.last();
        assert(keys.last() == keys[n]);
        let s0 = t.take(e) + blocks_text(dl) + t.skip(e);
        let q = quoted(id);
        assert(digit_text(keys[n].0));
        assert forall|j: int| 0 <= j < dl.len() implies id != #[trigger] dl[j].0 && id != dl[j].1 by {
            assert(keys[j].0 != keys[n].0);
            assert(keys[n].0 != keys[j].1);
        }
        assert forall|p: int| !lit_at(t, p, q) by {
            assert(!lit_at(t, p, quoted(keys[n].0)));
        }
        lemma_no_quoted_id(t, e, dl, id);
        lemma_no_key_value(s0, q, 0);
        if dl.len() == 0 {
            assert(s0 =~= t);
        } else {
            lemma_first_opening_kept(t, e, dl);
        }
        assert(put_keys_text(t, keys) == put_key_text(s0, id, key));
        assert(s0.take(e) =~= t.take(e));
        assert(s0.skip(e) =~= blocks_text(dl) + t.skip(e));
        assert(put_key_text(s0, id, key) =~= t.take(e) + (key_block(id, key) + blocks_text(dl)) + t.skip(e));
    }
}

/// The whitespace that opens the rest of the text is the same wherever the
/// rest stands.
proof fn lemma_ws_suffix(t: Seq<char>, e: int, s: Seq<char>, p: int)
    requires
        0 <= e <= t.len(),
        0 <= p <= s.len(),
        s.skip(p) == t.skip(e),
        !has_newline(t, e, skip_ws(t, e)),
    ensures
        !has_newline(s, p, skip_ws(s, p)),
{
    lemma_skip_ws_props(t, e);
    let w = skip_ws(t, e);
    assert(s.skip(p).len() == s.len() - p);
    assert(t.skip(e).len() == t.len() - e);
    assert forall|k: int| 0 <= k < t.len() - e implies #[trigger] s[p + k] == t[e + k] by {
        assert(s.skip(p)[k] == s[p + k]);
        assert(t.skip(e)[k] == t[e + k]);
        assert(s.skip(p)[k] == t.skip(e)[k]);
    }
    assert forall|k: int| p <= k < p + (w - e) implies is_white_space(#[trigger] s[k]) by {
        assert(s[p + (k - p)] == t[e + (k - p)]);
    }
    assert(s.len() - p == t.len() - e);
    if w < t.len() {
        assert(s[p + (w - e)] == t[e + (w - e)]);
    }
    lemma_skip_ws_run(s, p, p + (w - e));
    if has_newline(s, p, p + (w - e)) {
        let k = choose|k: int| p <= k < p + (w - e) && #[trigger] s[k] == '\n';
        assert(s[p + (k - p)] == t[e + (k - p)]);
        assert(t[e + (k - p)] == '\n');
        assert(has_newline(t, e, w));
    }
}

/// The block of the `k`-th key is the first of its depot in the text that
/// still holds the blocks of the keys from the `k`-th on; taking it out
/// leaves the blocks of the keys after it.
#[verifier::rlimit(60)]
proof fn lemma_remove_step(t: Seq<char>, e: int, keys: Seq<(Seq<char>, Seq<char>)>, k: int)
    requires
        1 <= e <= t.len(),
        t[e - 1] == '\n',
        !has_newline(t, e, skip_ws(t, e)),
        plain_keys(keys),
        forall|i: int, j: int| 0 <= i < j < keys.len() ==> #[trigger] keys[i].0 != #[trigger] keys[j].0,
        forall|i: int, p: int| 0 <= i < keys.len() ==> !(#[trigger] lit_at(t, p, quoted(keys[i].0))),
        0 <= k < keys.len(),
    ensures
        ({
            let u = t.take(e) + blocks_text(keys.skip(k)) + t.skip(e);
            let p = e + blocks_text(keys.skip(k + 1)).len();
            let l = key_block(keys[k].0, keys[k].1).len();
            &&& first_block(u, quoted(keys[k].0), 0) == Some((p, p + l))
            &&& u.take(p) + u.skip(p + l) == t.take(e) + blocks_text(keys.skip(k + 1)) + t.skip(e)
        }),
{
    let ks = keys.skip(k);
    let rest = keys.skip(k + 1);
    assert(ks.drop_first() =~= rest);
    assert(ks[0] == keys[k]);
    lemma_blocks_first_last(ks);
    let (id, key) = keys[k];
    let b = key_block(id, key);
    let br = blocks_text(rest);
    let tp = t.take(e) + br + t.skip(e);
    let p = e + br.len();
    let u = t.take(e) + blocks_text(ks) + t.skip(e);
    assert(u =~= tp.take(p) + b + tp.skip(p));
    assert(tp.skip(p) =~= t.skip(e));
    assert(digit_text(keys[k].0) && hex_text(keys[k].1));
    lemma_ws_suffix(t, e, tp, p);
    lemma_injected_block(tp, p, id, key);
    if rest.len() == 0 {
        assert(tp[p - 1] == t[e - 1]);
    } else {
        lemma_blocks_end(rest);
        assert(tp[p - 1] == br[br.len() - 1]);
    }
    assert forall|j: int| 0 <= j < rest.len() implies #[trigger] rest[j] == keys[k + 1 + j] by {}
    assert forall|i: int| 0 <= i < rest.len() implies digit_text(#[trigger] rest[i].0) && hex_text(rest[i].1) by {
        assert(digit_text(keys[k + 1 + i].0));
    }
    assert forall|j: int| 0 <= j < rest.len() implies id != #[trigger] rest[j].0 && id != rest[j].1 by {
        assert(keys[k].0 != keys[k + 1 + j].0);
        assert(keys[k].0 != keys[k + 1 + j].1);
    }
    assert forall|q: int| !lit_at(t, q, quoted(id)) by {
        assert(!lit_at(t, q, quoted(keys[k].0)));
    }
    lemma_no_quoted_id(t, e, rest, id);
    lemma_no_block_before(tp, p, id, key);
    lemma_key_block_chars(id, key);
    lemma_first_block_reaches(u, quoted(id), 0, p, p + b.len());
    assert(u.take(p) + u.skip(p + b.len()) =~= tp);
}

/// Removing, in order, the ids of the first `k` keys injected takes their
/// blocks out and leaves those of the others.
proof fn lemma_remove_keys(t: Seq<char>, e: int, keys: Seq<(Seq<char>, Seq<char>)>, k: int)
    requires
        1 <= e <= t.len(),
        t[e - 1] == '\n',
        !has_newline(t, e, skip_ws(t, e)),
        plain_keys(keys),
        forall|i: int, j: int| 0 <= i < j < keys.len() ==> #[trigger] keys[i].0 != #[trigger] keys[j].0,
        forall|i: int, p: int| 0 <= i < keys.len() ==> !(#[trigger] lit_at(t, p, quoted(keys[i].0))),
        0 <= k <= keys.len(),
    ensures
        removed_keys_text(t.take(e) + blocks_text(keys) + t.skip(e), keys.map_values(|p: (Seq<char>, Seq<char>)| p.0).take(k))
            == (t.take(e) + blocks_text(keys.skip(k)) + t.skip(e), k as nat),
    decreases k,
{
    let ids = keys.map_values(|p: (Seq<char>, Seq<char>)| p.0);
    if k == 0 {
        assert(keys.skip(0) =~= keys);
        assert(ids.take(0) =~= Seq::<Seq<char>>::empty());
    } else {
        lemma_remove_keys(t, e, keys, k - 1);
        lemma_remove_step(t, e, keys, k - 1);
        assert(ids.take(k).drop_last() =~= ids.take(k - 1));
        assert(ids.take(k).last() == keys[k - 1].0);
    }
}

/// Injecting depot keys into a `config.vdf` text that has a `depots` section
/// and names none of the depots, then removing those depots, gives the text
/// back, with one block removed per depot. The ids are distinct runs of
/// digits, the keys hex digits, no id equals a key, and the `depots` opening
/// is not followed by blank lines (which the removal would take along).
pub proof fn law_inject_then_remove_all(t: Seq<char>, keys: Seq<(Seq<char>, Seq<char>)>)
    requires
        first_opening(t, quoted("depots"@), 0) is Some,
        !has_newline(t, first_opening(t, quoted("depots"@), 0)->0,
            skip_ws(t, first_opening(t, quoted("depots"@), 0)->0)),
        plain_keys(keys),
        forall|i: int, j: int| 0 <= i < j < keys.len() ==> #[trigger] keys[i].0 != #[trigger] keys[j].0,
        forall|i: int, p: int| 0 <= i < keys.len() ==> !(#[trigger] lit_at(t, p, quoted(keys[i].0))),
    ensures
        match injected_text(t, keys) {
            Ok(u) => removed_keys_text(u, keys.map_values(|p: (Seq<char>, Seq<char>)| p.0)) == (t, keys.len()),
            Err(_) => false,
        },
{
    let dq = quoted("depots"@);
    let e = first_opening(t, dq, 0)->0;
    lemma_opening_ends_line(t, dq, 0);
    lemma_put_keys(t, e, keys);
    let ids = keys.map_values(|p: (Seq<char>, Seq<char>)| p.0);
    lemma_remove_keys(t, e, keys, keys.len() as int);
    assert(ids.take(keys.len() as int) =~= ids);
    assert(keys.skip(keys.len() as int) =~= Seq::<(Seq<char>, Seq<char>)>::empty());
    assert(t.take(e) + blocks_text(keys.skip(keys.len() as int)) + t.skip(e) =~= t);
    if keys.len() == 0 {
        assert(t.take(e) + blocks_text(keys) + t.skip(e) =~= t);
    }
}


proof fn lemma_skip_digits_run(s: Seq<char>, i: int, j: int)
    requires
        0 <= i <= j <= s.len(),
        forall|k: int| i <= k < j ==> is_digit(#[trigger] s[k]),
        j == s.len() || !is_digit(s[j]),
    ensures
        skip_digits(s, i) == j,
    decreases j - i,
{
    if i < j {
        lemma_skip_digits_run(s, i + 1, j);
    }
}

proof fn lemma_no_form(s: Seq<char>, p: int, f: Form)
    requires
        0 <= p,
        forall|k: int| p <= k < s.len() ==> #[trigger] form_at(s, k, f) is None,
    ensures
        first_form(s, p, f) is None,
    decreases s.len() - p,
{
    if p < s.len() {
        lemma_no_form(s, p + 1, f);
    }
}

/// A line that declares an id alone, followed by anything that declares
/// nothing (such as a `--` comment): `addappid(ID)` then the rest.
pub open spec fn id_line(id: Seq<char>, rest: Seq<char>) -> Seq<char> {
    "addappid("@ + id + ")"@ + rest
}

/// A line that opens with `addappid(ID)` lists the id and stores no key,
/// whatever follows on the line (a trailing `--` comment among them), as long
/// as what follows declares nothing itself. Only lines whose text starts with
/// `--` are comments.
pub proof fn law_trailing_comment_kept(
    acc: (Seq<Seq<char>>, Seq<(Seq<char>, Seq<char>)>),
    id: Seq<char>,
    rest: Seq<char>,
)
    requires
        id.len() > 0,
        forall|k: int| 0 <= k < id.len() ==> '0' <= #[trigger] id[k] && id[k] <= '9',
        forall|k: int| !lit_at(rest, k, "addappid"@),
        rest.len() == 0 || !is_white_space(rest.last()),
    ensures
        read_line(acc, id_line(id, rest)).0 == (if acc.0.contains(id) { acc.0 } else { acc.0.push(id) }),
        read_line(acc, id_line(id, rest)).1 == acc.1,
{
    reveal_strlit("addappid(");
    reveal_strlit(")");
    reveal_strlit("addappid");
    reveal_strlit("--");
    let t = id_line(id, rest);
    let n = id.len() as int;
    let w = "addappid"@;
    assert(t[0] == 'a');
    assert(t.last() == ')' || t.last() == rest.last());
    assert(crate::text::trim_start(t) == t);
    assert(trimmed(t) == t);
    assert(!has_prefix(t, "--"@)) by {
        assert(t.take(2)[0] == 'a');
    }
    assert forall|k: int| 0 <= k < n implies #[trigger] t[9 + k] == id[k] by {}
    assert(t[8] == '(');
    assert(t[9 + n] == ')');
    assert forall|k: int| 0 <= k < rest.len() implies #[trigger] t[10 + n + k] == rest[k] by {}
    assert(t.subrange(0, 8) =~= w);
    lemma_skip_ws_run(t, 8, 8);
    lemma_skip_ws_run(t, 9, 9);
    assert forall|k: int| 9 <= k < 9 + n implies is_digit(#[trigger] t[k]) by {
        assert(t[9 + (k - 9)] == id[k - 9]);
    }
    lemma_skip_digits_run(t, 9, 9 + n);
    lemma_skip_ws_run(t, 9 + n, 9 + n);
    assert(t.subrange(9, 9 + n) =~= id);
    assert(head_at(t, 0) == Some((id, 9 + n)));
    // No declaration starts anywhere but at the front.
    assert forall|p: int| 1 <= p < t.len() implies #[trigger] head_at(t, p) is None by {
        if p + 8 <= t.len() && t.subrange(p, p + 8) == w {
            if p <= 8 {
                assert(t.subrange(p, p + 8)[8 - p] == t[8]);
            } else if p <= 9 + n {
                assert(t.subrange(p, p + 8)[0] == t[p]);
                if p < 9 + n {
                    assert(t[9 + (p - 9)] == id[p - 9]);
                }
            } else {
                assert(rest.subrange(p - 10 - n, p - 2 - n) =~= t.subrange(p, p + 8));
                assert(lit_at(rest, p - 10 - n, w));
            }
        }
    }
    assert forall|p: int| 0 <= p < t.len() implies #[trigger] form_at(t, p, Form::Three) is None by {
        if p > 0 {
            assert(head_at(t, p) is None);
        }
    }
    assert forall|p: int| 0 <= p < t.len() implies #[trigger] form_at(t, p, Form::Two) is None by {
        if p > 0 {
            assert(head_at(t, p) is None);
        }
    }
    lemma_no_form(t, 0, Form::Three);
    lemma_no_form(t, 0, Form::Two);
    assert(form_at(t, 0, Form::IdOnly) == Some((id, Seq::<char>::empty())));
}


/// A line whose text, leading whitespace aside, starts with `--` is a
/// comment: it lists nothing and stores no key, whatever it holds.
pub proof fn law_comment_line_ignored(acc: (Seq<Seq<char>>, Seq<(Seq<char>, Seq<char>)>), line: Seq<char>)
    requires
        has_prefix(trimmed(line), "--"@),
    ensures
        read_line(acc, line) == acc,
{
}

} // verus!
