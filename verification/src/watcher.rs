//! The update watcher's rules: which installed games Steam marks as needing an
//! update, when a newer build or a stale depot manifest means one is due, and
//! the state the watcher keeps between checks.
use vstd::prelude::*;
use crate::app_list::{first_index_of, holds_text, GameProfile, ProfileModel, profiles_view};
use crate::text::{chars_of, contains_str, contains_text, decimal, ends_with_str, has_prefix, has_suffix,
    occurs_at, parse_u64, parse_u64_text, starts_with_str, string_of, strings_view};

verus! {

/// What the watcher remembers.
pub struct WatcherState {
    /// The last build id seen for each app id.
    pub known_builds: Vec<(String, u64)>,
    pub running: bool,
    /// When the last check ended, in seconds on the caller's clock.
    pub last_check: Option<u64>,
    /// Updates waiting for the user: app id, old build, new build.
    pub pending_updates: Vec<(String, u64, u64)>,
}

/// The outcome of checking one game.
pub struct UpdateCheckResult {
    pub app_id: String,
    pub name: String,
    pub old_build: Option<u64>,
    pub new_build: u64,
    pub needs_update: bool,
}

/// The first position from `i` on where `needle` occurs in `hay`.
pub open spec fn find_from(hay: Seq<char>, needle: Seq<char>, i: int) -> Option<int>
    decreases hay.len() - i,
{
    if i < 0 || i + needle.len() > hay.len() {
        None
    } else if hay.subrange(i, i + needle.len()) == needle {
        Some(i)
    } else if i >= hay.len() {
        None
    } else {
        find_from(hay, needle, i + 1)
    }
}

/// The value an app manifest gives for a quoted label, read the way the
/// watcher reads it: from the first occurrence of the label, past the label's
/// closing quote, the text between the next two quotes.
pub open spec fn acf_field(content: Seq<char>, label: Seq<char>) -> Option<Seq<char>> {
    match find_from(content, label, 0) {
        None => None,
        Some(p) => {
            let rem = content.skip(p);
            match first_index_of(rem, '"') {
                None => None,
                Some(sq) => match first_index_of(rem.skip(sq + 1), '"') {
                    None => None,
                    Some(el) => {
                        let vp = rem.skip(sq + 1 + el + 1);
                        match first_index_of(vp, '"') {
                            None => None,
                            Some(vs) => match first_index_of(vp.skip(vs + 1), '"') {
                                None => None,
                                Some(ve) => Some(vp.subrange(vs + 1, vs + 1 + ve)),
                            },
                        }
                    },
                },
            }
        },
    }
}

/// Steam's install states that ask for an update: 6, 1026, 1042, 1062, or any
/// with the update-required bit (2) set.
pub open spec fn flags_need_update(flags: u32) -> bool {
    flags == 6 || flags == 1026 || flags == 1042 || flags == 1062 || (flags & 2u32) != 0
}

/// The `StateFlags` of an app manifest, 0 when missing or not a 32-bit number.
pub open spec fn state_flags_of(content: Seq<char>) -> u32 {
    match acf_field(content, "\"StateFlags\""@) {
        Some(v) => match parse_u64(v) {
            Some(n) => if n <= u32::MAX { n as u32 } else { 0 },
            None => 0,
        },
        None => 0,
    }
}

/// The `buildid` of an app manifest, 0 when missing or not a number.
pub open spec fn build_id_of(content: Seq<char>) -> u64 {
    match acf_field(content, "\"buildid\""@) {
        Some(v) => match parse_u64(v) {
            Some(n) => n,
            None => 0,
        },
        None => 0,
    }
}

/// The `appid` of an app manifest, empty when missing.
pub open spec fn app_id_of(content: Seq<char>) -> Seq<char> {
    match acf_field(content, "\"appid\""@) {
        Some(v) => v,
        None => Seq::empty(),
    }
}

proof fn lemma_first_index_char(s: Seq<char>, c: char, k: int)
    requires
        0 <= k <= s.len(),
        forall|j: int| 0 <= j < k ==> s[j] != c,
        k < s.len() ==> s[k] == c,
    ensures
        first_index_of(s, c) == if k < s.len() { Some(k) } else { None::<int> },
    decreases s.len(),
{
    if s.len() > 0 {
        if k < s.len() {
            if k < s.len() - 1 {
                lemma_first_index_char(s.drop_last(), c, k);
            } else {
                lemma_first_index_char(s.drop_last(), c, s.len() - 1);
            }
        } else {
            lemma_first_index_char(s.drop_last(), c, s.len() - 1);
        }
    }
}

/// The first `c` in `cs` at or after `from`, as an offset from `from`.
fn find_char(cs: &Vec<char>, c: char, from: usize) -> (r: Option<usize>)
    requires
        from <= cs.len(),
    ensures
        match r {
            Some(k) => first_index_of(cs@.skip(from as int), c) == Some(k as int) && from + k < cs.len(),
            None => first_index_of(cs@.skip(from as int), c) is None,
        },
{
    let mut i: usize = from;
    while i < cs.len() && cs[i] != c
        invariant
            from <= i <= cs.len(),
            forall|j: int| from <= j < i ==> cs@[j] != c,
        decreases cs.len() - i,
    {
        i = i + 1;
    }
    let ghost s = cs@.skip(from as int);
    proof {
        assert forall|j: int| 0 <= j < i - from implies s[j] != c by {
            assert(s[j] == cs@[from + j]);
        }
        if i < cs.len() {
            assert(s[i - from] == cs@[i as int]);
        }
        lemma_first_index_char(s, c, i - from);
    }
    if i < cs.len() { Some(i - from) } else { None }
}

/// The first occurrence of `needle` in `hay` at or after `from`.
fn find_text(hay: &Vec<char>, needle: &Vec<char>, from: usize) -> (r: Option<usize>)
    requires
        from <= hay.len(),
    ensures
        match r {
            Some(p) => find_from(hay@, needle@, from as int) == Some(p as int) && p <= hay.len(),
            None => find_from(hay@, needle@, from as int) is None,
        },
{
    let mut i: usize = from;
    while i <= hay.len() && hay.len() - i >= needle.len()
        invariant
            from <= i,
            i <= hay.len() + 1,
            find_from(hay@, needle@, from as int) == find_from(hay@, needle@, i as int),
        decreases hay.len() + 1 - i,
    {
        if occurs_at(hay, needle, i) {
            return Some(i);
        }
        assert(needle@.len() == 0 ==> hay@.subrange(i as int, i as int) =~= needle@);
        i = i + 1;
    }
    None
}

fn chars_between(cs: &Vec<char>, a: usize, b: usize) -> (r: String)
    requires
        a <= b <= cs.len(),
    ensures
        r@ == cs@.subrange(a as int, b as int),
{
    let v = crate::profiles::slice_chars(cs, a, b);
    string_of(&v)
}

/// The value an app manifest gives for a quoted label.
pub fn acf_field_text(content: &str, label: &str) -> (r: Option<String>)
    ensures
        match acf_field(content@, label@) {
            Some(v) => r matches Some(s) && s@ == v,
            None => r is None,
        },
{
    let cs = chars_of(content);
    let lb = chars_of(label);
    let p = match find_text(&cs, &lb, 0) {
        Some(p) => p,
        None => {
            return None;
        },
    };
    let ghost rem = cs@.skip(p as int);
    let sq = match find_char(&cs, '"', p) {
        Some(k) => k,
        None => {
            return None;
        },
    };
    proof { assert(rem.skip(sq + 1) =~= cs@.skip(p + sq + 1)); }
    let el = match find_char(&cs, '"', p + sq + 1) {
        Some(k) => k,
        None => {
            return None;
        },
    };
    let vp_start = p + sq + 1 + el + 1;
    let ghost vp = rem.skip(sq + 1 + el + 1);
    proof { assert(vp =~= cs@.skip(vp_start as int)); }
    let vs = match find_char(&cs, '"', vp_start) {
        Some(k) => k,
        None => {
            return None;
        },
    };
    proof { assert(vp.skip(vs + 1) =~= cs@.skip(vp_start + vs + 1)); }
    let ve = match find_char(&cs, '"', vp_start + vs + 1) {
        Some(k) => k,
        None => {
            return None;
        },
    };
    let r = chars_between(&cs, vp_start + vs + 1, vp_start + vs + 1 + ve);
    assert(r@ =~= vp.subrange(vs + 1, vs + 1 + ve));
    Some(r)
}

pub fn state_requires_update(flags: u32) -> (r: bool)
    ensures
        r == flags_need_update(flags),
{
    flags == 6 || flags == 1026 || flags == 1042 || flags == 1062 || (flags & 2u32) != 0
}

pub fn acf_state_flags(content: &str) -> (r: u32)
    ensures
        r == state_flags_of(content@),
{
    match acf_field_text(content, "\"StateFlags\"") {
        Some(v) => match parse_u64_text(&v) {
            Some(n) => if n <= 0xffff_ffffu64 { n as u32 } else { 0 },
            None => 0,
        },
        None => 0,
    }
}

pub fn acf_build_id(content: &str) -> (r: u64)
    ensures
        r == build_id_of(content@),
{
    match acf_field_text(content, "\"buildid\"") {
        Some(v) => match parse_u64_text(&v) {
            Some(n) => n,
            None => 0,
        },
        None => 0,
    }
}

pub fn acf_app_id(content: &str) -> (r: String)
    ensures
        r@ == app_id_of(content@),
{
    match acf_field_text(content, "\"appid\"") {
        Some(v) => v,
        None => String::new(),
    }
}

/// The startup scan's verdict on one file of a `steamapps` folder: the app
/// id of a managed game whose app manifest asks for an update.
pub open spec fn broken_managed(file_name: Seq<char>, content: Seq<char>, managed: Seq<Seq<char>>) -> Option<Seq<char>> {
    if has_prefix(file_name, "appmanifest_"@) && has_suffix(file_name, ".acf"@)
        && flags_need_update(state_flags_of(content)) && managed.contains(app_id_of(content)) {
        Some(app_id_of(content))
    } else {
        None
    }
}

pub fn broken_managed_game(file_name: &str, content: &str, managed: &Vec<String>) -> (r: Option<String>)
    ensures
        match broken_managed(file_name@, content@, strings_view(managed@)) {
            Some(a) => r matches Some(s) && s@ == a,
            None => r is None,
        },
{
    if !(starts_with_str(file_name, "appmanifest_") && ends_with_str(file_name, ".acf")) {
        return None;
    }
    let flags = acf_state_flags(content);
    if !state_requires_update(flags) {
        return None;
    }
    let appid = acf_app_id(content);
    if !holds_text(managed, &appid) {
        return None;
    }
    Some(appid)
}

/// Whether a library entry is worth an update check: depot entries and
/// content shown under a parent are not.
pub fn is_update_candidate(name: &str) -> (r: bool)
    ensures
        r == !(has_prefix(name@, "Depot ("@) || contains_text(name@, "(Content)"@)),
{
    !(starts_with_str(name, "Depot (") || contains_str(name, "(Content)"))
}

/// What the watcher knows of an installed game's app manifest: whether one was
/// found, and its text when it could be read.
pub struct AcfStatus {
    pub found: bool,
    pub content: Option<String>,
}

/// A stale manifest of a depot in the depot cache: `{depot}_...manifest` but
/// not the expected `{depot}_{gid}.manifest`.
pub open spec fn stale_manifest(name: Seq<char>, depot: Seq<char>, expected: Seq<char>) -> bool {
    has_prefix(name, depot + "_"@) && has_suffix(name, ".manifest"@) && name != expected
}

/// A depot whose current manifest is missing while an older one is there.
pub open spec fn depot_outdated(depot: Seq<char>, gid: Option<Seq<char>>, cache: Seq<Seq<char>>) -> bool {
    match gid {
        Some(g) => !cache.contains(crate::vault::manifest_name(depot, g))
            && has_stale(cache, depot, crate::vault::manifest_name(depot, g)),
        None => false,
    }
}

/// Some cached file is a stale manifest of the depot.
pub open spec fn has_stale(cache: Seq<Seq<char>>, depot: Seq<char>, expected: Seq<char>) -> bool {
    exists|i: int| 0 <= i < cache.len() && #[trigger] stale_manifest(cache[i], depot, expected)
}

pub open spec fn some_depot_outdated(depots: Seq<(Seq<char>, Option<Seq<char>>)>, cache: Seq<Seq<char>>) -> bool {
    exists|i: int| 0 <= i < depots.len() && #[trigger] depot_outdated(depots[i].0, depots[i].1, cache)
}

pub open spec fn depots_view(ds: Seq<(String, Option<String>)>) -> Seq<(Seq<char>, Option<Seq<char>>)> {
    ds.map_values(|d: (String, Option<String>)| (d.0@, crate::api::opt_text(d.1)))
}

/// Whether an installed game needs an update, with the build id its app
/// manifest records (0 when unknown): its install state asks for one; or
/// both builds are known and the remote one is newer; or, failing that and
/// lacking a local build, a depot's current manifest is missing from the
/// depot cache while an older one is there. `cache` lists the depot cache,
/// `None` when it does not exist.
pub open spec fn update_verdict(
    remote_build: u64,
    found: bool,
    content: Option<Seq<char>>,
    cache: Option<Seq<Seq<char>>>,
    depots: Seq<(Seq<char>, Option<Seq<char>>)>,
) -> (u64, bool) {
    let text = match content {
        Some(c) => if found { c } else { Seq::empty() },
        None => Seq::empty(),
    };
    let local = if found && content is Some { build_id_of(text) } else { 0 };
    let flags = if found && content is Some { state_flags_of(text) } else { 0 };
    let by_state = if flags_need_update(flags) {
        true
    } else if local > 0 && remote_build > 0 {
        remote_build > local
    } else {
        false
    };
    let by_cache = !by_state && (!found || local == 0) && match cache {
        Some(names) => some_depot_outdated(depots, names),
        None => false,
    };
    (local, by_state || by_cache)
}

fn depot_is_outdated(depot: &str, gid: &Option<String>, cache: &Vec<String>) -> (r: bool)
    ensures
        r == depot_outdated(depot@, crate::api::opt_text(*gid), strings_view(cache@)),
{
    match gid {
        Some(g) => {
            let expected = crate::vault::manifest_file_name(depot, g);
            if holds_text(cache, &expected) {
                return false;
            }
            let prefix = crate::text::concat(depot, "_");
            let mut i: usize = 0;
            while i < cache.len()
                invariant
                    i <= cache.len(),
                    prefix@ == depot@ + "_"@,
                    !strings_view(cache@).contains(expected@),
                    expected@ == crate::vault::manifest_name(depot@, g@),
                    crate::api::opt_text(*gid) == Some(g@),
                    forall|k: int| 0 <= k < i ==> !#[trigger] stale_manifest(strings_view(cache@)[k], depot@, expected@),
                decreases cache.len() - i,
            {
                let name = &cache[i];
                assert(strings_view(cache@)[i as int] == cache@[i as int]@);
                if starts_with_str(name, &prefix) && ends_with_str(name, ".manifest") && !crate::text::text_eq(name, &expected) {
                    assert(stale_manifest(strings_view(cache@)[i as int], depot@, expected@));
                    assert(strings_view(cache@).len() == cache@.len());
                    assert(!strings_view(cache@).contains(expected@));
                    assert(expected@ == crate::vault::manifest_name(depot@, g@));
                    return true;
                }
                i = i + 1;
            }
            false
        },
        None => false,
    }
}

/// Whether an installed game needs an update, with its recorded build id.
pub fn update_needed(
    remote_build: u64,
    acf: &AcfStatus,
    cache: Option<&Vec<String>>,
    depots: &Vec<(String, Option<String>)>,
) -> (r: (u64, bool))
    ensures
        r == update_verdict(
            remote_build,
            acf.found,
            crate::api::opt_text(acf.content),
            match cache {
                Some(c) => Some(strings_view(c@)),
                None => None,
            },
            depots_view(depots@),
        ),
{
    let mut local: u64 = 0;
    let mut flags: u32 = 0;
    if acf.found {
        match &acf.content {
            Some(c) => {
                local = acf_build_id(c);
                flags = acf_state_flags(c);
            },
            None => {},
        }
    }
    let by_state = if state_requires_update(flags) {
        true
    } else if local > 0 && remote_build > 0 {
        remote_build > local
    } else {
        false
    };
    let mut needs = by_state;
    if !needs && (!acf.found || local == 0) {
        needs = cache_outdated(cache, depots);
    }
    (local, needs)
}

/// Whether the depot cache, when it exists, holds an older manifest of some
/// depot whose current one is missing.
fn cache_outdated(cache: Option<&Vec<String>>, depots: &Vec<(String, Option<String>)>) -> (r: bool)
    ensures
        r == match cache {
            Some(c) => some_depot_outdated(depots_view(depots@), strings_view(c@)),
            None => false,
        },
{
    let mut needs = false;
    match cache {
        Some(names) => {
            let mut i: usize = 0;
            while i < depots.len() && !needs
                invariant
                    i <= depots.len(),
                    needs ==> some_depot_outdated(depots_view(depots@), strings_view(names@)),
                    !needs ==> forall|k: int| 0 <= k < i ==> !#[trigger] depot_outdated(depots_view(depots@)[k].0,
                        depots_view(depots@)[k].1, strings_view(names@)),
                decreases depots.len() - i,
            {
                assert(depots_view(depots@)[i as int] == (depots@[i as int].0@, crate::api::opt_text(depots@[i as int].1)));
                if depot_is_outdated(&depots[i].0, &depots[i].1, names) {
                    assert(depot_outdated(depots_view(depots@)[i as int].0, depots_view(depots@)[i as int].1,
                        strings_view(names@)));
                    needs = true;
                }
                i = i + 1;
            }
        },
        None => {},
    }
    needs
}

/// Whether the update scan marks a game as outdated, with the build id its
/// app manifest records (0 when unknown): both builds are known and the
/// remote one is newer; or, failing that and lacking a local build, a
/// depot's current manifest is missing from the depot cache while an older
/// one is there. Unlike the watcher, the scan does not read the install
/// state.
pub open spec fn scan_verdict(
    remote_build: u64,
    found: bool,
    content: Option<Seq<char>>,
    cache: Option<Seq<Seq<char>>>,
    depots: Seq<(Seq<char>, Option<Seq<char>>)>,
) -> (u64, bool) {
    let local = if found && content is Some { build_id_of(content->0) } else { 0 };
    let by_build = local > 0 && remote_build > 0 && remote_build > local;
    let by_cache = !by_build && (!found || local == 0) && match cache {
        Some(names) => some_depot_outdated(depots, names),
        None => false,
    };
    (local, by_build || by_cache)
}

/// The update scan's verdict on one game.
pub fn scan_update_needed(
    remote_build: u64,
    acf: &AcfStatus,
    cache: Option<&Vec<String>>,
    depots: &Vec<(String, Option<String>)>,
) -> (r: (u64, bool))
    ensures
        r == scan_verdict(
            remote_build,
            acf.found,
            crate::api::opt_text(acf.content),
            match cache {
                Some(c) => Some(strings_view(c@)),
                None => None,
            },
            depots_view(depots@),
        ),
{
    let mut local: u64 = 0;
    if acf.found {
        match &acf.content {
            Some(c) => {
                local = acf_build_id(c);
            },
            None => {},
        }
    }
    let by_build = local > 0 && remote_build > 0 && remote_build > local;
    let mut needs = by_build;
    if !needs && (!acf.found || local == 0) {
        needs = cache_outdated(cache, depots);
    }
    (local, needs)
}

impl WatcherState {
    /// Nothing known, not running.
    pub fn new() -> (r: WatcherState)
        ensures
            r.known_builds@.len() == 0,
            !r.running,
            r.last_check is None,
            r.pending_updates@.len() == 0,
    {
        WatcherState { known_builds: Vec::new(), running: false, last_check: None, pending_updates: Vec::new() }
    }

    /// Flags an app for the user, with unknown builds, unless it is already
    /// pending.
    pub fn flag_pending(&mut self, appid: String)
        ensures
            (exists|i: int| 0 <= i < old(self).pending_updates@.len() && #[trigger] old(self).pending_updates@[i].0@ == appid@)
                ==> final(self).pending_updates@ == old(self).pending_updates@,
            !(exists|i: int| 0 <= i < old(self).pending_updates@.len() && #[trigger] old(self).pending_updates@[i].0@ == appid@)
                ==> final(self).pending_updates@ == old(self).pending_updates@.push((appid, 0u64, 0u64)),
            final(self).known_builds@ == old(self).known_builds@,
            final(self).running == old(self).running,
            final(self).last_check == old(self).last_check,
    {
        let mut i: usize = 0;
        while i < self.pending_updates.len()
            invariant
                i <= self.pending_updates.len(),
                self.pending_updates@ == old(self).pending_updates@,
                forall|k: int| 0 <= k < i ==> #[trigger] self.pending_updates@[k].0@ != appid@,
            decreases self.pending_updates.len() - i,
        {
            if crate::text::text_eq(&self.pending_updates[i].0, &appid) {
                return;
            }
            i = i + 1;
        }
        self.pending_updates.push((appid, 0, 0));
    }

    /// Records the latest build seen for an app id: the first entry for it
    /// takes the new build, or a new entry is added.
    pub fn record_build(&mut self, appid: String, build: u64)
        ensures
            final(self).pending_updates@ == old(self).pending_updates@,
            final(self).running == old(self).running,
            final(self).last_check == old(self).last_check,
            builds_lookup(final(self).known_builds@, appid@) == Some(build),
            forall|a: Seq<char>| a != appid@ ==> #[trigger] builds_lookup(final(self).known_builds@, a)
                == builds_lookup(old(self).known_builds@, a),
    {
        let mut i: usize = 0;
        while i < self.known_builds.len()
            invariant
                i <= self.known_builds.len(),
                self.known_builds@ == old(self).known_builds@,
                self.pending_updates@ == old(self).pending_updates@,
                self.running == old(self).running,
                self.last_check == old(self).last_check,
                forall|k: int| 0 <= k < i ==> #[trigger] self.known_builds@[k].0@ != appid@,
            decreases self.known_builds.len() - i,
        {
            if crate::text::text_eq(&self.known_builds[i].0, &appid) {
                let k = self.known_builds[i].0.clone();
                let ghost before = self.known_builds@;
                self.known_builds.set(i, (k, build));
                proof { lemma_builds_lookup_set(before, i as int, build); }
                return;
            }
            i = i + 1;
        }
        let ghost before = self.known_builds@;
        let ghost e = (appid, build);
        proof { lemma_builds_lookup_push(before, e); }
        self.known_builds.push((appid, build));
        assert(self.known_builds@ == before.push(e));
    }

    /// The pending updates after a check: one per game that needs one.
    pub fn set_pending(&mut self, results: &Vec<UpdateCheckResult>)
        ensures
            final(self).pending_updates@.len() == pending_of(results@).len(),
            forall|i: int| 0 <= i < pending_of(results@).len() ==> {
                &&& (#[trigger] final(self).pending_updates@[i]).0@ == pending_of(results@)[i].0
                &&& final(self).pending_updates@[i].1 == pending_of(results@)[i].1
                &&& final(self).pending_updates@[i].2 == pending_of(results@)[i].2
            },
            final(self).known_builds@ == old(self).known_builds@,
            final(self).running == old(self).running,
            final(self).last_check == old(self).last_check,
    {
        let mut out: Vec<(String, u64, u64)> = Vec::new();
        let mut i: usize = 0;
        while i < results.len()
            invariant
                i <= results.len(),
                out@.len() == pending_of(results@.take(i as int)).len(),
                forall|k: int| 0 <= k < out@.len() ==> {
                    &&& (#[trigger] out@[k]).0@ == pending_of(results@.take(i as int))[k].0
                    &&& out@[k].1 == pending_of(results@.take(i as int))[k].1
                    &&& out@[k].2 == pending_of(results@.take(i as int))[k].2
                },
            decreases results.len() - i,
        {
            proof { assert(results@.take(i as int + 1).drop_last() =~= results@.take(i as int)); }
            let u = &results[i];
            if u.needs_update {
                let old_build = match u.old_build {
                    Some(b) => b,
                    None => 0,
                };
                out.push((u.app_id.clone(), old_build, u.new_build));
            }
            i = i + 1;
        }
        assert(results@.take(results.len() as int) =~= results@);
        self.pending_updates = out;
    }
}

/// The pending triples of the results that need an update, in order.
pub open spec fn pending_of(rs: Seq<UpdateCheckResult>) -> Seq<(Seq<char>, u64, u64)>
    decreases rs.len(),
{
    if rs.len() == 0 {
        Seq::empty()
    } else {
        let rest = pending_of(rs.drop_last());
        let u = rs.last();
        if u.needs_update {
            rest.push((u.app_id@, match u.old_build {
                Some(b) => b,
                None => 0u64,
            }, u.new_build))
        } else {
            rest
        }
    }
}

/// The build recorded for an app id: the first entry for it.
pub open spec fn builds_lookup(bs: Seq<(String, u64)>, a: Seq<char>) -> Option<u64>
    decreases bs.len(),
{
    if bs.len() == 0 {
        None
    } else if bs[0].0@ == a {
        Some(bs[0].1)
    } else {
        builds_lookup(bs.drop_first(), a)
    }
}

proof fn lemma_builds_lookup_set(bs: Seq<(String, u64)>, i: int, build: u64)
    requires
        0 <= i < bs.len(),
        forall|k: int| 0 <= k < i ==> #[trigger] bs[k].0@ != bs[i].0@,
    ensures
        builds_lookup(bs.update(i, (bs[i].0, build)), bs[i].0@) == Some(build),
        forall|a: Seq<char>| a != bs[i].0@ ==> #[trigger] builds_lookup(bs.update(i, (bs[i].0, build)), a)
            == builds_lookup(bs, a),
    decreases bs.len(),
{
    let nb = bs.update(i, (bs[i].0, build));
    if i > 0 {
        assert(nb[0] == bs[0]);
        assert(bs[0].0@ != bs[i].0@);
        assert(nb.drop_first() =~= bs.drop_first().update(i - 1, (bs[i].0, build)));
        assert forall|k: int| 0 <= k < i - 1 implies #[trigger] bs.drop_first()[k].0@ != bs.drop_first()[i - 1].0@ by {
            assert(bs.drop_first()[k] == bs[k + 1]);
        }
        lemma_builds_lookup_set(bs.drop_first(), i - 1, build);
        assert(bs.drop_first()[i - 1] == bs[i]);
        assert forall|a: Seq<char>| a != bs[i].0@ implies #[trigger] builds_lookup(nb, a) == builds_lookup(bs, a) by {
            if bs[0].0@ != a {
                assert(builds_lookup(nb, a) == builds_lookup(nb.drop_first(), a));
                assert(builds_lookup(bs, a) == builds_lookup(bs.drop_first(), a));
            }
        }
    } else {
        assert(nb.drop_first() =~= bs.drop_first());
        assert(nb[0].0 == bs[0].0);
        assert forall|a: Seq<char>| a != bs[i].0@ implies #[trigger] builds_lookup(nb, a) == builds_lookup(bs, a) by {
            assert(builds_lookup(nb, a) == builds_lookup(nb.drop_first(), a));
            assert(builds_lookup(bs, a) == builds_lookup(bs.drop_first(), a));
        }
    }
}

proof fn lemma_builds_lookup_push(bs: Seq<(String, u64)>, e: (String, u64))
    requires
        forall|k: int| 0 <= k < bs.len() ==> #[trigger] bs[k].0@ != e.0@,
    ensures
        builds_lookup(bs.push(e), e.0@) == Some(e.1),
        forall|a: Seq<char>| a != e.0@ ==> #[trigger] builds_lookup(bs.push(e), a) == builds_lookup(bs, a),
    decreases bs.len(),
{
    if bs.len() > 0 {
        assert(bs.push(e).drop_first() =~= bs.drop_first().push(e));
        assert forall|k: int| 0 <= k < bs.drop_first().len() implies #[trigger] bs.drop_first()[k].0@ != e.0@ by {
            assert(bs.drop_first()[k] == bs[k + 1]);
        }
        lemma_builds_lookup_push(bs.drop_first(), e);
        assert(bs.push(e)[0] == bs[0]);
        assert forall|a: Seq<char>| a != e.0@ implies #[trigger] builds_lookup(bs.push(e), a) == builds_lookup(bs, a) by {
            if bs[0].0@ != a {
                assert(builds_lookup(bs.push(e), a) == builds_lookup(bs.drop_first().push(e), a));
                assert(builds_lookup(bs.drop_first().push(e), a) == builds_lookup(bs.drop_first(), a));
            }
        }
    } else {
        assert(bs.push(e).drop_first() =~= Seq::<(String, u64)>::empty());
        assert(bs.push(e)[0] == e);
        assert forall|a: Seq<char>| a != e.0@ implies #[trigger] builds_lookup(bs.push(e), a) == builds_lookup(bs, a) by {
            assert(builds_lookup(bs.push(e), a) == builds_lookup(bs.push(e).drop_first(), a));
        }
    }
}


/// What was fetched for a game before its update check: the store's current
/// build (`None` when the answer had none), its app manifest, the depot cache
/// listing (`None` when there is no cache folder) and its depots with their
/// current manifest ids.
pub struct FetchedInfo {
    pub remote_build: Option<u64>,
    pub acf: AcfStatus,
    pub cache: Option<Vec<String>>,
    pub depots: Vec<(String, Option<String>)>,
}

pub open spec fn cache_view(c: Option<Vec<String>>) -> Option<Seq<Seq<char>>> {
    match c {
        Some(v) => Some(strings_view(v@)),
        None => None,
    }
}

/// An update-check result as values: id, name, old build, new build, whether
/// it needs an update.
pub open spec fn check_result_view(u: UpdateCheckResult) -> (Seq<char>, Seq<char>, Option<u64>, u64, bool) {
    (u.app_id@, u.name@, u.old_build, u.new_build, u.needs_update)
}

pub open spec fn check_results_view(us: Seq<UpdateCheckResult>) -> Seq<(Seq<char>, Seq<char>, Option<u64>, u64, bool)> {
    us.map_values(|u: UpdateCheckResult| check_result_view(u))
}

/// A check over the library: the ids checked so far, the results, and the
/// builds recorded, in order. An entry is checked when its name is worth it
/// and its id was not checked before; a checked entry whose fetch brought a
/// build records that build, and is listed, with its recorded build as the
/// old one and the store's as the new one, when `update_verdict` says it
/// needs an update.
pub open spec fn check_run(gs: Seq<ProfileModel>, fs: Seq<Option<FetchedInfo>>)
    -> (Seq<Seq<char>>, Seq<(Seq<char>, Seq<char>, Option<u64>, u64, bool)>, Seq<(Seq<char>, u64)>)
    decreases gs.len(),
{
    if gs.len() == 0 {
        (Seq::empty(), Seq::empty(), Seq::empty())
    } else {
        let (seen, res, rec) = check_run(gs.drop_last(), fs);
        let g = gs.last();
        if !crate::commands::watcher::update_candidate(g.name) || seen.contains(g.app_id) {
            (seen, res, rec)
        } else {
            let seen2 = seen.push(g.app_id);
            match fs[gs.len() - 1] {
                Some(f) => match f.remote_build {
                    Some(r) => {
                        let (l, need) = update_verdict(r, f.acf.found, crate::api::opt_text(f.acf.content),
                            cache_view(f.cache), depots_view(f.depots@));
                        let res2 = if need { res.push((g.app_id, g.name, Some(l), r, true)) } else { res };
                        (seen2, res2, rec.push((g.app_id, r)))
                    },
                    None => (seen2, res, rec),
                },
                None => (seen2, res, rec),
            }
        }
    }
}

/// The build last recorded for an id.
pub open spec fn recorded_build(rec: Seq<(Seq<char>, u64)>, a: Seq<char>) -> Option<u64>
    decreases rec.len(),
{
    if rec.len() == 0 {
        None
    } else if rec.last().0 == a {
        Some(rec.last().1)
    } else {
        recorded_build(rec.drop_last(), a)
    }
}

impl WatcherState {
    /// Checks the library's games for updates, given what was fetched for
    /// each (`fetched[i]` for `games[i]`; `None` when nothing was fetched):
    /// returns the games that need an update and records every build fetched.
    pub fn check_games_for_updates_internal(&mut self, games: &Vec<GameProfile>, fetched: &Vec<Option<FetchedInfo>>)
        -> (r: Vec<UpdateCheckResult>)
        requires
            fetched.len() == games.len(),
        ensures
            check_results_view(r@) == check_run(profiles_view(games@), fetched@).1,
            forall|a: Seq<char>| #[trigger] builds_lookup(final(self).known_builds@, a) == match recorded_build(
                check_run(profiles_view(games@), fetched@).2, a) {
                Some(b) => Some(b),
                None => builds_lookup(old(self).known_builds@, a),
            },
            final(self).pending_updates@ == old(self).pending_updates@,
            final(self).running == old(self).running,
            final(self).last_check == old(self).last_check,
    {
        let ghost gv = profiles_view(games@);
        let ghost fv = fetched@;
        let mut seen: Vec<String> = Vec::new();
        let mut results: Vec<UpdateCheckResult> = Vec::new();
        let ghost mut rec: Seq<(Seq<char>, u64)> = Seq::empty();
        let mut i: usize = 0;
        while i < games.len()
            invariant
                i <= games.len(),
                fetched.len() == games.len(),
                gv == profiles_view(games@),
                fv == fetched@,
                strings_view(seen@) == check_run(gv.take(i as int), fv).0,
                check_results_view(results@) == check_run(gv.take(i as int), fv).1,
                rec == check_run(gv.take(i as int), fv).2,
                forall|a: Seq<char>| #[trigger] builds_lookup(self.known_builds@, a) == match recorded_build(rec, a) {
                    Some(b) => Some(b),
                    None => builds_lookup(old(self).known_builds@, a),
                },
                self.pending_updates@ == old(self).pending_updates@,
                self.running == old(self).running,
                self.last_check == old(self).last_check,
            decreases games.len() - i,
        {
            proof {
                assert(gv.take(i as int + 1).drop_last() =~= gv.take(i as int));
                assert(gv.take(i as int + 1).last() == games@[i as int]@);
                assert(gv.take(i as int + 1).len() - 1 == i);
            }
            let g = &games[i];
            if is_update_candidate(&g.name) && !holds_text(&seen, &g.app_id) {
                let id = g.app_id.clone();
                proof { crate::text::lemma_strings_view_push(seen@, id); }
                seen.push(id);
                match &fetched[i] {
                    Some(f) => match f.remote_build {
                        Some(remote) => {
                            let (local, need) = update_needed(remote, &f.acf, f.cache.as_ref(), &f.depots);
                            if need {
                                let u = UpdateCheckResult {
                                    app_id: g.app_id.clone(),
                                    name: g.name.clone(),
                                    old_build: Some(local),
                                    new_build: remote,
                                    needs_update: true,
                                };
                                let ghost before = check_results_view(results@);
                                results.push(u);
                                assert(check_results_view(results@) =~= before.push(check_result_view(u)));
                            }
                            let ghost before_builds = self.known_builds@;
                            self.record_build(g.app_id.clone(), remote);
                            proof {
                                let old_rec = rec;
                                rec = rec.push((g.app_id@, remote));
                                assert(rec.drop_last() =~= old_rec);
                            }
                        },
                        None => {},
                    },
                    None => {},
                }
            }
            i = i + 1;
        }
        assert(gv.take(games.len() as int) =~= gv);
        results
    }
}


/// Whether the `i`-th entry is checked and, by its fetched build and app
/// manifest, needs an update.
pub open spec fn checked_and_outdated(gs: Seq<ProfileModel>, fs: Seq<Option<FetchedInfo>>, i: int) -> bool {
    &&& crate::commands::watcher::update_candidate(gs[i].name)
    &&& !check_run(gs.take(i), fs).0.contains(gs[i].app_id)
    &&& fs[i] matches Some(f)
    &&& f.remote_build is Some
    &&& update_verdict(f.remote_build->0, f.acf.found, crate::api::opt_text(f.acf.content), cache_view(f.cache),
        depots_view(f.depots@)).1
}

/// An update check lists only games that need an update, each id once, none
/// named like a depot or content entry, each with the store's build as the
/// new one; and it lists every checked game that needs one, among them every
/// game whose app manifest's install state asks for an update.
pub proof fn law_check_results(gs: Seq<ProfileModel>, fs: Seq<Option<FetchedInfo>>)
    ensures
        forall|k: int| 0 <= k < check_run(gs, fs).1.len() ==> {
            let u = #[trigger] check_run(gs, fs).1[k];
            &&& u.4
            &&& crate::commands::watcher::update_candidate(u.1)
            &&& check_run(gs, fs).0.contains(u.0)
        },
        forall|a: int, b: int| 0 <= a < b < check_run(gs, fs).1.len() ==>
            (#[trigger] check_run(gs, fs).1[a]).0 != (#[trigger] check_run(gs, fs).1[b]).0,
        forall|i: int| 0 <= i < gs.len() && #[trigger] checked_and_outdated(gs, fs, i) ==>
            exists|k: int| 0 <= k < check_run(gs, fs).1.len() && (#[trigger] check_run(gs, fs).1[k]).0 == gs[i].app_id
                && check_run(gs, fs).1[k].3 == fs[i]->0.remote_build->0,
        forall|r: u64, c: Seq<char>, cache: Option<Seq<Seq<char>>>, ds: Seq<(Seq<char>, Option<Seq<char>>)>|
            flags_need_update(state_flags_of(c)) ==> (#[trigger] update_verdict(r, true, Some(c), cache, ds)).1,
    decreases gs.len(),
{
    if gs.len() > 0 {
        let p = gs.drop_last();
        law_check_results(p, fs);
        let (seen, res, rec) = check_run(p, fs);
        let (seen2, res2, rec2) = check_run(gs, fs);
        let n = gs.len() - 1;
        assert(gs.take(n) =~= p);
        assert forall|i: int| 0 <= i < n implies gs.take(i) =~= p.take(i) by {}
        assert forall|k: int| 0 <= k < res.len() implies res2[k] == res[k] by {}
        assert forall|k: int| 0 <= k < res2.len() implies {
            let u = #[trigger] res2[k];
            &&& u.4
            &&& crate::commands::watcher::update_candidate(u.1)
            &&& seen2.contains(u.0)
        } by {
            if k < res.len() {
                let j = choose|j: int| 0 <= j < seen.len() && seen[j] == res[k].0;
                if seen2 != seen {
                    assert(seen2[j] == seen[j]);
                }
            } else {
                assert(seen2[seen.len() as int] == gs[n].app_id);
            }
        }
        assert forall|a: int, b: int| 0 <= a < b < res2.len() implies (#[trigger] res2[a]).0 != (#[trigger] res2[b]).0 by {
            if b >= res.len() {
                assert(res2[a] == res[a]);
                assert(!seen.contains(gs[n].app_id));
            } else {
                assert(res2[a] == res[a] && res2[b] == res[b]);
            }
        }
        assert forall|i: int| 0 <= i < gs.len() && #[trigger] checked_and_outdated(gs, fs, i) implies
            exists|k: int| 0 <= k < res2.len() && (#[trigger] res2[k]).0 == gs[i].app_id
                && res2[k].3 == fs[i]->0.remote_build->0 by {
            if i < n {
                assert(gs.take(i) =~= p.take(i));
                assert(p[i] == gs[i]);
                assert(checked_and_outdated(p, fs, i));
                let k = choose|k: int| 0 <= k < res.len() && (#[trigger] res[k]).0 == p[i].app_id
                    && res[k].3 == fs[i]->0.remote_build->0;
                assert(res2[k] == res[k]);
            } else {
                assert(res2[res.len() as int].0 == gs[i].app_id);
            }
        }
    }
}


/// What happened to one depot while an update's manifests were fetched: its
/// current manifest id (`None` when the answer gave none, and nothing is
/// done); the cached manifest file, when there was one (its size and its
/// first four bytes, when they could be read); the vault's copy, when there
/// was one (its first four bytes, when they could be read) and whether it
/// was copied into the cache; and, when it was downloaded, the first four
/// bytes of the new file.
pub struct DepotRefresh {
    pub gid: Option<String>,
    pub cached: Option<(u64, Option<Vec<u8>>)>,
    pub vault_head: Option<Option<Vec<u8>>>,
    pub vault_copied: bool,
    pub downloaded_head: Option<Option<Vec<u8>>>,
}

pub open spec fn head_ok(h: Option<Vec<u8>>) -> bool {
    match h {
        Some(b) => crate::downloader::manifest_magic(b@),
        None => false,
    }
}

/// The cached file is kept: over 50 bytes and starting with the magic.
pub open spec fn cache_kept(d: DepotRefresh) -> bool {
    match d.cached {
        Some((size, head)) => size > 50 && head_ok(head),
        None => false,
    }
}

/// A depot ends with a valid manifest in the cache: the cached one is kept;
/// or the vault's copy starts with the magic and was copied; or the
/// downloaded file starts with the magic (one that does not is deleted).
pub open spec fn depot_valid(d: DepotRefresh) -> bool {
    d.gid is Some && (cache_kept(d)
        || (match d.vault_head {
            Some(h) => head_ok(h),
            None => false,
        } && d.vault_copied)
        || match d.downloaded_head {
            Some(h) => head_ok(h),
            None => false,
        })
}

pub open spec fn valid_count(ds: Seq<DepotRefresh>) -> nat
    decreases ds.len(),
{
    if ds.len() == 0 {
        0
    } else {
        valid_count(ds.drop_last()) + if depot_valid(ds.last()) { 1nat } else { 0nat }
    }
}

pub open spec fn with_gid_count(ds: Seq<DepotRefresh>) -> nat
    decreases ds.len(),
{
    if ds.len() == 0 {
        0
    } else {
        with_gid_count(ds.drop_last()) + if ds.last().gid is Some { 1nat } else { 0nat }
    }
}

fn head_is_magic(h: &Option<Vec<u8>>) -> (r: bool)
    ensures
        r == head_ok(*h),
{
    match h {
        Some(b) => b.len() >= 4 && b[0] == 0xD0u8 && b[1] == 0x17u8 && b[2] == 0xF6u8 && b[3] == 0x71u8,
        None => false,
    }
}

/// Whether a freshly downloaded manifest is kept (it starts with the magic)
/// or deleted.
pub fn keep_downloaded(head: &Option<Vec<u8>>) -> (r: bool)
    ensures
        r == head_ok(*head),
{
    head_is_magic(head)
}

/// The number of depots an update leaves with a valid manifest, given what
/// happened to each; the error of the app-information request when it
/// failed.
pub fn trigger_update_download(depots: &Result<Vec<DepotRefresh>, String>) -> (r: Result<usize, String>)
    ensures
        match depots {
            Ok(ds) => r matches Ok(n) && n == valid_count(ds@) && n <= with_gid_count(ds@),
            Err(e) => r matches Err(m) && m@ == e@,
        },
{
    match depots {
        Err(e) => Err(e.clone()),
        Ok(ds) => {
            let mut n: usize = 0;
            let mut i: usize = 0;
            while i < ds.len()
                invariant
                    i <= ds.len(),
                    n == valid_count(ds@.take(i as int)),
                    n <= with_gid_count(ds@.take(i as int)),
                    with_gid_count(ds@.take(i as int)) <= i,
                decreases ds.len() - i,
            {
                proof {
                    assert(ds@.take(i as int + 1).drop_last() =~= ds@.take(i as int));
                    assert(ds@.take(i as int + 1).last() == ds@[i as int]);
                }
                let d = &ds[i];
                let valid = d.gid.is_some() && (
                    (match &d.cached {
                        Some((size, head)) => *size > 50 && head_is_magic(head),
                        None => false,
                    }) || (match &d.vault_head {
                        Some(h) => head_is_magic(h),
                        None => false,
                    } && d.vault_copied) || (match &d.downloaded_head {
                        Some(h) => head_is_magic(h),
                        None => false,
                    }));
                if valid {
                    n = n + 1;
                }
                i = i + 1;
            }
            assert(ds@.take(ds.len() as int) =~= ds@);
            Ok(n)
        },
    }
}

} // verus!
