//! The decisions around restarting Steam: which proxy libraries block a
//! clean start, and what the GreenLuma folder must hold.
use vstd::prelude::*;
use crate::paths::PathText;
use crate::text::{concat3, strings_view};

verus! {

/// The libraries that, in the Steam folder, force injection.
pub open spec fn proxy_names() -> Seq<Seq<char>> {
    seq!["user32.dll"@, "version.dll"@, "winmm.dll"@, "winhttp.dll"@, "d3d9.dll"@]
}

pub fn proxy_dlls() -> (r: Vec<String>)
    ensures
        strings_view(r@) == proxy_names(),
{
    let mut r: Vec<String> = Vec::new();
    r.push("user32.dll".to_string());
    r.push("version.dll".to_string());
    r.push("winmm.dll".to_string());
    r.push("winhttp.dll".to_string());
    r.push("d3d9.dll".to_string());
    assert(strings_view(r@) =~= proxy_names());
    r
}

/// Names as a debug list: `["a", "b"]`.
pub open spec fn quoted_list(ns: Seq<Seq<char>>) -> Seq<char>
    decreases ns.len(),
{
    if ns.len() == 0 {
        Seq::empty()
    } else if ns.len() == 1 {
        "\""@ + ns[0] + "\""@
    } else {
        quoted_list(ns.drop_last()) + ", \""@ + ns.last() + "\""@
    }
}

/// The proxies present, in the list's order (`present[i]` says whether the
/// `i`-th is in the Steam folder).
pub open spec fn present_proxies(present: Seq<bool>) -> Seq<Seq<char>>
    decreases present.len(),
{
    if present.len() == 0 || present.len() > 5 {
        Seq::empty()
    } else {
        let rest = present_proxies(present.drop_last());
        if present.last() { rest.push(proxy_names()[present.len() - 1]) } else { rest }
    }
}

/// A clean start is refused when a proxy library is present, naming them.
pub open spec fn clean_start_verdict(found: Seq<Seq<char>>) -> Result<(), Seq<char>> {
    if found.len() == 0 {
        Ok(())
    } else {
        Err("Clean Launch Impossible: GreenLuma proxy DLLs found in Steam folder (["@ + quoted_list(found)
            + "]). Please remove them or use Stealth Mode."@)
    }
}

pub fn clean_start(present: &Vec<bool>) -> (r: Result<(), String>)
    requires
        present.len() == 5,
    ensures
        match clean_start_verdict(present_proxies(present@)) {
            Ok(()) => r is Ok,
            Err(m) => r matches Err(t) && t@ == m,
        },
{
    let names = proxy_dlls();
    assert(strings_view(names@).len() == names@.len());
    let mut found: Vec<String> = Vec::new();
    let mut i: usize = 0;
    while i < 5
        invariant
            i <= 5,
            present.len() == 5,
            strings_view(names@) == proxy_names(),
            names.len() == 5,
            strings_view(found@) == present_proxies(present@.take(i as int)),
        decreases 5 - i,
    {
        proof {
            assert(present@.take(i as int + 1).drop_last() =~= present@.take(i as int));
            assert(present@.take(i as int + 1).last() == present@[i as int]);
            assert(strings_view(names@)[i as int] == names@[i as int]@);
        }
        if present[i] {
            let t = names[i].clone();
            proof { crate::text::lemma_strings_view_push(found@, t); }
            found.push(t);
        }
        i = i + 1;
    }
    assert(present@.take(5) =~= present@);
    if found.len() == 0 {
        return Ok(());
    }
    let ghost fv = strings_view(found@);
    let mut list = String::new();
    let mut k: usize = 0;
    while k < found.len()
        invariant
            k <= found.len(),
            fv == strings_view(found@),
            list@ == quoted_list(fv.take(k as int)),
        decreases found.len() - k,
    {
        proof {
            assert(fv.take(k as int + 1).drop_last() =~= fv.take(k as int));
            assert(fv[k as int] == found@[k as int]@);
        }
        if k == 0 {
            list = concat3("\"", &found[k], "\"");
            assert(fv.take(1).len() == 1);
        } else {
            let piece = concat3(", \"", &found[k], "\"");
            list.push_str(&piece);
        }
        k = k + 1;
    }
    assert(fv.take(found.len() as int) =~= fv);
    let a = concat3("Clean Launch Impossible: GreenLuma proxy DLLs found in Steam folder ([", &list, "]). Please remove them or use Stealth Mode.");
    Err(a)
}

/// What the GreenLuma folder needs: `NoQuestion.bin` created when missing;
/// `StealthMode.bin` created when stealth is on and it is missing, removed
/// when stealth is off and it is there.
pub struct GreenLumaActions {
    pub create_no_question: bool,
    pub create_stealth: bool,
    pub remove_stealth: bool,
}

pub fn greenluma_actions(no_question_exists: bool, stealth_exists: bool, enable_stealth: bool) -> (r: GreenLumaActions)
    ensures
        r.create_no_question == !no_question_exists,
        r.create_stealth == (enable_stealth && !stealth_exists),
        r.remove_stealth == (!enable_stealth && stealth_exists),
{
    GreenLumaActions {
        create_no_question: !no_question_exists,
        create_stealth: enable_stealth && !stealth_exists,
        remove_stealth: !enable_stealth && stealth_exists,
    }
}

/// The GreenLuma files: `NoQuestion.bin`, `StealthMode.bin`, and the library
/// injected into Steam.
pub fn greenluma_files(gl_path: &str) -> (r: (PathText, PathText, PathText))
    ensures
        r.0@ == seq![gl_path@, "NoQuestion.bin"@],
        r.1@ == seq![gl_path@, "StealthMode.bin"@],
        r.2@ == seq![gl_path@, "GreenLuma_2025_x64.dll"@],
{
    let base = PathText::new(gl_path);
    (base.join("NoQuestion.bin"), base.join("StealthMode.bin"), base.join("GreenLuma_2025_x64.dll"))
}

/// A file name's extension: the text after its last dot, none when the only
/// dot leads the name.
pub open spec fn extension_of(f: Seq<char>) -> Seq<char> {
    match crate::profiles::last_index_of(f, '.') {
        Some(p) => if p > 0 { f.skip(p + 1) } else { Seq::empty() },
        None => Seq::empty(),
    }
}

/// The names Steamless works with for an executable: the unpacked copy it
/// writes, `{stem}.unpacked.{ext}`, and the backup of the original,
/// `{name}.bak`.
pub fn steamless_names(file_name: &str) -> (r: (String, String))
    ensures
        r.0@ == crate::app_list::file_stem_of(file_name@) + ".unpacked."@ + extension_of(file_name@),
        r.1@ == file_name@ + ".bak"@,
{
    let stem = crate::app_list::file_stem(file_name);
    let ext = match crate::profiles::last_position(file_name, '.') {
        Some(p) => if p > 0 {
            let cs = crate::text::chars_of(file_name);
            proof { crate::profiles::lemma_last_index_of_bounds(file_name@, '.'); }
            let m = cs.len();
            assert(p < m);
            let tail = crate::profiles::slice_chars(&cs, p + 1, m);
            assert(tail@ =~= file_name@.skip(p + 1));
            crate::text::string_of(&tail)
        } else {
            String::new()
        },
        None => String::new(),
    };
    (concat3(&stem, ".unpacked.", &ext), crate::text::concat(file_name, ".bak"))
}

} // verus!
