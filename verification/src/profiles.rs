//! Named lists of app ids, kept as `Profiles/{name}.json` files.
use vstd::prelude::*;
use crate::paths::PathText;
use crate::text::{chars_of, concat, string_of, strings_view};

verus! {

/// A saved selection of app ids.
pub struct Profile {
    pub name: String,
    pub app_ids: Vec<String>,
}

pub struct ProfileManager {
    pub base_path: PathText,
}

/// The position of the last `c` in `s`.
pub open spec fn last_index_of(s: Seq<char>, c: char) -> Option<int>
    decreases s.len(),
{
    if s.len() == 0 {
        None
    } else if s.last() == c {
        Some(s.len() - 1)
    } else {
        last_index_of(s.drop_last(), c)
    }
}

/// The profile a file in the profiles folder holds: the file stem when the
/// extension (the text after the last dot, a leading dot not counting) is
/// `json`.
pub open spec fn profile_name_of(file_name: Seq<char>) -> Option<Seq<char>> {
    match last_index_of(file_name, '.') {
        Some(p) => if p > 0 && file_name.skip(p + 1) == "json"@ {
            Some(file_name.take(p))
        } else {
            None
        },
        None => None,
    }
}

pub proof fn lemma_last_index_of_bounds(s: Seq<char>, c: char)
    ensures
        match last_index_of(s, c) {
            Some(p) => 0 <= p < s.len() && s[p] == c && forall|k: int| p < k < s.len() ==> s[k] != c,
            None => forall|k: int| 0 <= k < s.len() ==> s[k] != c,
        },
    decreases s.len(),
{
    if s.len() > 0 && s.last() != c {
        let pre = s.drop_last();
        lemma_last_index_of_bounds(pre, c);
        assert forall|k: int| 0 <= k < pre.len() implies pre[k] == s[k] by {}
    }
}

proof fn lemma_last_index_of_suffix(s: Seq<char>, c: char, i: int)
    requires
        0 <= i <= s.len(),
        forall|k: int| i <= k < s.len() ==> s[k] != c,
    ensures
        last_index_of(s, c) == last_index_of(s.take(i), c),
    decreases s.len() - i,
{
    if i < s.len() {
        assert(s.drop_last().take(i) =~= s.take(i));
        lemma_last_index_of_suffix(s.drop_last(), c, i);
    } else {
        assert(s.take(i) =~= s);
    }
}

impl Profile {
    /// The profile with a name and no app ids, which loading gives for a
    /// profile that has no file.
    pub fn empty(name: &str) -> (r: Profile)
        ensures
            r.name@ == name@,
            r.app_ids@.len() == 0,
    {
        Profile { name: name.to_string(), app_ids: Vec::new() }
    }
}

impl ProfileManager {
    /// The manager rooted next to the executable, or at `.` when its folder is
    /// unknown.
    pub fn new(exe_dir: Option<&str>) -> (r: ProfileManager)
        ensures
            r.base_path@ == match exe_dir {
                Some(d) => seq![d@],
                None => seq!["."@],
            },
    {
        match exe_dir {
            Some(d) => ProfileManager { base_path: PathText::new(d) },
            None => ProfileManager { base_path: PathText::new(".") },
        }
    }

    pub fn get_profiles_dir(&self) -> (r: PathText)
        ensures
            r@ == self.base_path@.push("Profiles"@),
    {
        self.base_path.join("Profiles")
    }

    /// The file a profile is saved to, loaded from and deleted from.
    pub fn profile_path(&self, name: &str) -> (r: PathText)
        ensures
            r@ == self.base_path@.push("Profiles"@).push(name@ + ".json"@),
    {
        self.get_profiles_dir().join_string(concat(name, ".json"))
    }

    /// The profile names that a listing of the profiles folder shows, in the
    /// listing's order.
    pub fn profile_names(&self, file_names: &Vec<String>) -> (r: Vec<String>)
        ensures
            strings_view(r@) == names_in(strings_view(file_names@)),
    {
        let mut r: Vec<String> = Vec::new();
        let mut i: usize = 0;
        while i < file_names.len()
            invariant
                i <= file_names.len(),
                strings_view(r@) == names_in(strings_view(file_names@).take(i as int)),
            decreases file_names.len() - i,
        {
            let ghost fs = strings_view(file_names@);
            proof {
                assert(fs.take(i as int + 1).drop_last() =~= fs.take(i as int));
                assert(fs[i as int] == file_names@[i as int]@);
            }
            match profile_name(&file_names[i]) {
                Some(n) => {
                    proof { crate::text::lemma_strings_view_push(r@, n); }
                    r.push(n);
                },
                None => {},
            }
            i = i + 1;
        }
        proof {
            assert(strings_view(file_names@).take(file_names.len() as int) =~= strings_view(file_names@));
        }
        r
    }
}

/// The profile names among file names, in order.
pub open spec fn names_in(fs: Seq<Seq<char>>) -> Seq<Seq<char>>
    decreases fs.len(),
{
    if fs.len() == 0 {
        Seq::empty()
    } else {
        let rest = names_in(fs.drop_last());
        match profile_name_of(fs.last()) {
            Some(n) => rest.push(n),
            None => rest,
        }
    }
}

/// The profile a file holds, by its name.
pub fn profile_name(file_name: &str) -> (r: Option<String>)
    ensures
        match r {
            Some(n) => profile_name_of(file_name@) == Some(n@),
            None => profile_name_of(file_name@) is None,
        },
{
    let cs = chars_of(file_name);
    let mut i: usize = cs.len();
    while i > 0 && cs[i - 1] != '.'
        invariant
            i <= cs.len(),
            cs@ == file_name@,
            forall|k: int| i <= k < cs.len() ==> cs@[k] != '.',
        decreases i,
    {
        i = i - 1;
    }
    proof {
        lemma_last_index_of_bounds(file_name@, '.');
        lemma_last_index_of_suffix(file_name@, '.', i as int);
        lemma_last_index_of_bounds(file_name@.take(i as int), '.');
    }
    if i == 0 {
        proof {
            assert(file_name@.take(0) =~= Seq::<char>::empty());
        }
        return None;
    }
    let p = i - 1;
    proof {
        assert(file_name@.take(i as int).last() == '.');
        assert(last_index_of(file_name@.take(i as int), '.') == Some(p as int));
    }
    if p == 0 {
        return None;
    }
    let ext: Vec<char> = slice_chars(&cs, i, cs.len());
    let is_json = ext.len() == 4 && ext[0] == 'j' && ext[1] == 's' && ext[2] == 'o' && ext[3] == 'n';
    proof {
        reveal_strlit("json");
        assert(ext@ == file_name@.skip(p + 1));
        if is_json {
            assert(ext@ =~= "json"@);
        }
        if file_name@.skip(p + 1) == "json"@ {
            assert(ext@.len() == 4);
            assert(ext@[0] == 'j' && ext@[1] == 's' && ext@[2] == 'o' && ext@[3] == 'n');
        }
    }
    if !is_json {
        return None;
    }
    let stem = slice_chars(&cs, 0, p);
    let n = string_of(&stem);
    assert(n@ =~= file_name@.take(p as int));
    Some(n)
}

/// The characters of `cs` from `a` up to `b`.
pub fn slice_chars(cs: &Vec<char>, a: usize, b: usize) -> (r: Vec<char>)
    requires
        a <= b <= cs.len(),
    ensures
        r@ == cs@.subrange(a as int, b as int),
{
    let mut r: Vec<char> = Vec::new();
    let mut k: usize = a;
    while k < b
        invariant
            a <= k <= b <= cs.len(),
            r@ == cs@.subrange(a as int, k as int),
        decreases b - k,
    {
        r.push(cs[k]);
        assert(cs@.subrange(a as int, k + 1) =~= cs@.subrange(a as int, k as int).push(cs@[k as int]));
        k = k + 1;
    }
    r
}


/// The position of the last occurrence of a character in a text.
pub fn last_position(f: &str, c: char) -> (r: Option<usize>)
    ensures
        match r {
            Some(p) => last_index_of(f@, c) == Some(p as int),
            None => last_index_of(f@, c) is None,
        },
{
    let cs = chars_of(f);
    let mut i: usize = cs.len();
    while i > 0 && cs[i - 1] != c
        invariant
            i <= cs.len(),
            cs@ == f@,
            forall|k: int| i <= k < cs.len() ==> cs@[k] != c,
        decreases i,
    {
        i = i - 1;
    }
    proof {
        lemma_last_index_of_suffix(f@, c, i as int);
        if i == 0 {
            assert(f@.take(0) =~= Seq::<char>::empty());
        } else {
            assert(f@.take(i as int).last() == c);
        }
    }
    if i == 0 { None } else { Some(i - 1) }
}

} // verus!
