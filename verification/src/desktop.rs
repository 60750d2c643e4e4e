//! The records of the desktop front end: its settings, its library entries
//! and its search results.
use vstd::prelude::*;
use crate::app_list::{find_value, holds_text, pairs_view, lookup_pair};
use crate::text::{concat3, strings_view};
use crate::api::{SearchResult, val_to_string, value_text};
use crate::json::{JsonValue, as_text, at, get_in, text_of};

verus! {

/// The desktop front end's settings.
pub struct AppConfig {
    pub api_key: String,
    pub steam_path: String,
    pub gl_path: String,
    pub steamless_path: String,
}

impl AppConfig {
    /// The defaults around the Steam folder found, or an empty path.
    pub fn defaults_with(steam_path: Option<String>) -> (r: AppConfig)
        ensures
            r.api_key@.len() == 0,
            r.gl_path@.len() == 0,
            r.steamless_path@.len() == 0,
            r.steam_path@ == match steam_path {
                Some(p) => p@,
                None => Seq::<char>::empty(),
            },
    {
        let steam = match steam_path {
            Some(p) => p,
            None => String::new(),
        };
        AppConfig { api_key: String::new(), steam_path: steam, gl_path: String::new(), steamless_path: String::new() }
    }
}

/// The install folders the desktop front end looks for Steam in, in order.
pub fn default_steam_candidates() -> (r: Vec<String>)
    ensures
        strings_view(r@) == seq!["C:\\Program Files (x86)\\Steam"@, "C:\\Program Files\\Steam"@],
{
    let mut r: Vec<String> = Vec::new();
    r.push("C:\\Program Files (x86)\\Steam".to_string());
    r.push("C:\\Program Files\\Steam".to_string());
    assert(strings_view(r@) =~= seq!["C:\\Program Files (x86)\\Steam"@, "C:\\Program Files\\Steam"@]);
    r
}

/// A library entry of the desktop front end.
pub struct GameProfile {
    pub app_id: String,
    pub name: String,
    pub filename: String,
}

/// A search result with its cover picture.
pub struct CoveredGame {
    pub id: String,
    pub name: String,
    pub cover_url: String,
}

/// The name the desktop front end shows: the cached one, else `Depot (id)`
/// for a depot with a manifest, else `Unknown`.
pub open spec fn desktop_name(app_id: Seq<char>, cache: Seq<(Seq<char>, Seq<char>)>, depot_stems: Seq<Seq<char>>) -> Seq<char> {
    match lookup_pair(cache, app_id) {
        Some(n) => if n == "Unknown"@ && depot_stems.contains(app_id) { "Depot ("@ + app_id + ")"@ } else { n },
        None => if depot_stems.contains(app_id) { "Depot ("@ + app_id + ")"@ } else { "Unknown"@ },
    }
}

/// The library entry for one listed app id. `depot_stems` are the stems of
/// the depot cache's manifest files.
pub fn desktop_entry(app_id: &str, filename: &str, cache: &Vec<(String, String)>, depot_stems: &Vec<String>) -> (r: GameProfile)
    ensures
        r.app_id@ == app_id@,
        r.filename@ == filename@,
        r.name@ == desktop_name(app_id@, pairs_view(cache@), strings_view(depot_stems@)),
{
    let mut name = match find_value(cache, app_id) {
        Some(n) => n,
        None => "Unknown".to_string(),
    };
    if crate::text::text_eq(&name, "Unknown") && holds_text(depot_stems, app_id) {
        name = concat3("Depot (", app_id, ")");
    }
    GameProfile { app_id: app_id.to_string(), name, filename: filename.to_string() }
}


/// The ids the desktop front end puts on the list for an installation. With
/// the text of the downloaded scripts: the ids they declare, all of them when
/// DLCs are included, else only the app itself. Without: the app, then the
/// store's DLC list when DLCs are included and it was fetched.
pub open spec fn desktop_ids(appid: Seq<char>, include_dlcs: bool, lua: Seq<char>, store_dlcs: Option<Seq<Seq<char>>>) -> Seq<Seq<char>> {
    if lua.len() > 0 {
        ids_kept(crate::vdf_injector::lua_keys(lua).0, appid, include_dlcs)
    } else {
        seq![appid] + if include_dlcs {
            match store_dlcs {
                Some(d) => d,
                None => Seq::empty(),
            }
        } else {
            Seq::empty()
        }
    }
}

/// The ids kept from a script: every one when DLCs are included, else those
/// equal to the app.
pub open spec fn ids_kept(ids: Seq<Seq<char>>, appid: Seq<char>, include_dlcs: bool) -> Seq<Seq<char>>
    decreases ids.len(),
{
    if ids.len() == 0 {
        Seq::empty()
    } else {
        let r = ids_kept(ids.drop_last(), appid, include_dlcs);
        if include_dlcs || ids.last() == appid { r.push(ids.last()) } else { r }
    }
}

pub fn desktop_install_ids(appid: &str, include_dlcs: bool, lua: &str, store_dlcs: Option<&Vec<String>>) -> (r: Vec<String>)
    ensures
        strings_view(r@) == desktop_ids(appid@, include_dlcs, lua@, match store_dlcs {
            Some(d) => Some(strings_view(d@)),
            None => None,
        }),
{
    let mut out: Vec<String> = Vec::new();
    if crate::text::chars_of(lua).len() > 0 {
        let (ids, _keys) = crate::vdf_injector::parse_lua_for_keys(lua);
        let ghost iv = strings_view(ids@);
        let mut i: usize = 0;
        while i < ids.len()
            invariant
                i <= ids.len(),
                iv == strings_view(ids@),
                strings_view(out@) == ids_kept(iv.take(i as int), appid@, include_dlcs),
            decreases ids.len() - i,
        {
            proof {
                assert(iv.take(i as int + 1).drop_last() =~= iv.take(i as int));
                assert(iv.take(i as int + 1).last() == ids@[i as int]@);
            }
            if include_dlcs || crate::text::text_eq(&ids[i], appid) {
                let t = ids[i].clone();
                proof { crate::text::lemma_strings_view_push(out@, t); }
                out.push(t);
            }
            i = i + 1;
        }
        assert(iv.take(ids.len() as int) =~= iv);
        out
    } else {
        let t = appid.to_string();
        proof { crate::text::lemma_strings_view_push(out@, t); }
        out.push(t);
        assert(strings_view(out@) =~= seq![appid@]);
        if include_dlcs {
            match store_dlcs {
                Some(d) => {
                    let mut i: usize = 0;
                    while i < d.len()
                        invariant
                            i <= d.len(),
                            strings_view(out@) == seq![appid@] + strings_view(d@).take(i as int),
                        decreases d.len() - i,
                    {
                        let t = d[i].clone();
                        proof { crate::text::lemma_strings_view_push(out@, t); }
                        out.push(t);
                        assert(seq![appid@] + strings_view(d@).take(i as int + 1) =~= (seq![appid@] + strings_view(d@).take(i as int)).push(d@[i as int]@));
                        i = i + 1;
                    }
                    assert(strings_view(d@).take(d.len() as int) =~= strings_view(d@));
                },
                None => {
                    assert(strings_view(out@) =~= seq![appid@] + Seq::<Seq<char>>::empty());
                },
            }
        } else {
            assert(strings_view(out@) =~= seq![appid@] + Seq::<Seq<char>>::empty());
        }
        out
    }
}

pub open spec fn desktop_profiles_view(gs: Seq<GameProfile>) -> Seq<(Seq<char>, Seq<char>)> {
    gs.map_values(|g: GameProfile| (g.app_id@, g.name@))
}

/// The ids of the library entries still named `Unknown`, in order.
pub open spec fn unknown_entry_ids(gs: Seq<(Seq<char>, Seq<char>)>) -> Seq<Seq<char>>
    decreases gs.len(),
{
    if gs.len() == 0 {
        Seq::empty()
    } else {
        let r = unknown_entry_ids(gs.drop_last());
        if gs.last().1 == "Unknown"@ { r.push(gs.last().0) } else { r }
    }
}

pub fn unknown_entries(games: &Vec<GameProfile>) -> (r: Vec<String>)
    ensures
        strings_view(r@) == unknown_entry_ids(desktop_profiles_view(games@)),
{
    let ghost gv = desktop_profiles_view(games@);
    let mut out: Vec<String> = Vec::new();
    let mut i: usize = 0;
    while i < games.len()
        invariant
            i <= games.len(),
            gv == desktop_profiles_view(games@),
            strings_view(out@) == unknown_entry_ids(gv.take(i as int)),
        decreases games.len() - i,
    {
        proof {
            assert(gv.take(i as int + 1).drop_last() =~= gv.take(i as int));
            assert(gv.take(i as int + 1).last() == (games@[i as int].app_id@, games@[i as int].name@));
        }
        if crate::text::text_eq(&games[i].name, "Unknown") {
            let t = games[i].app_id.clone();
            proof { crate::text::lemma_strings_view_push(out@, t); }
            out.push(t);
        }
        i = i + 1;
    }
    assert(gv.take(games.len() as int) =~= gv);
    out
}

/// Whether a search result carries the id, as its game id or its app id.
pub open spec fn result_has_id(r: SearchResult, id: Seq<char>) -> bool {
    value_text(r.game_id) == id || value_text(r.app_id) == id
}

/// The position of the first result carrying the id, from `i` on.
pub open spec fn first_with_id(rs: Seq<SearchResult>, id: Seq<char>, i: int) -> Option<int>
    decreases rs.len() - i,
{
    if i < 0 || i >= rs.len() {
        None
    } else if result_has_id(rs[i], id) {
        Some(i)
    } else {
        first_with_id(rs, id, i + 1)
    }
}

/// The name the search gives for an id: that of the first result carrying the
/// id (its game name, else its name), unless there is none or it is `Unknown`.
pub open spec fn search_name_for(rs: Seq<SearchResult>, id: Seq<char>) -> Option<Seq<char>> {
    match first_with_id(rs, id, 0) {
        Some(k) => {
            let n = match rs[k].game_name {
                Some(g) => g@,
                None => match rs[k].name {
                    Some(m) => m@,
                    None => "Unknown"@,
                },
            };
            if n == "Unknown"@ { None } else { Some(n) }
        },
        None => None,
    }
}

pub fn search_name(id: &str, results: &Vec<SearchResult>) -> (r: Option<String>)
    ensures
        crate::api::opt_text(r) == search_name_for(results@, id@),
{
    let mut i: usize = 0;
    while i < results.len()
        invariant
            i <= results.len(),
            first_with_id(results@, id@, 0) == first_with_id(results@, id@, i as int),
        decreases results.len() - i,
    {
        let a = val_to_string(results[i].game_id.as_ref());
        let b = val_to_string(results[i].app_id.as_ref());
        if crate::text::text_eq(&a, id) || crate::text::text_eq(&b, id) {
            let n = match &results[i].game_name {
                Some(g) => g.clone(),
                None => match &results[i].name {
                    Some(m) => m.clone(),
                    None => "Unknown".to_string(),
                },
            };
            if crate::text::text_eq(&n, "Unknown") {
                return None;
            }
            return Some(n);
        }
        i = i + 1;
    }
    None
}

/// The store's name for an app: `{id}.data.name` when it is text.
pub fn store_app_name(root: &JsonValue, id: &str) -> (r: Option<String>)
    ensures
        crate::api::opt_text(r) == as_text(at(at(at(Some(*root), id@), "data"@), "name"@)),
{
    text_of(get_in(get_in(get_in(Some(root), id), "data"), "name"))
}


/// The DLCs found for a game that the library lists, in the order found.
pub open spec fn installed_of(found: Seq<Seq<char>>, listed: Seq<Seq<char>>) -> Seq<Seq<char>>
    decreases found.len(),
{
    if found.len() == 0 {
        Seq::empty()
    } else {
        let r = installed_of(found.drop_last(), listed);
        if listed.contains(found.last()) { r.push(found.last()) } else { r }
    }
}

pub fn installed_dlcs(found: &Vec<String>, games: &Vec<GameProfile>) -> (r: Vec<String>)
    ensures
        strings_view(r@) == installed_of(strings_view(found@), desktop_profiles_view(games@).map_values(|g: (Seq<char>, Seq<char>)| g.0)),
{
    let ghost lv = desktop_profiles_view(games@).map_values(|g: (Seq<char>, Seq<char>)| g.0);
    let mut listed: Vec<String> = Vec::new();
    let mut j: usize = 0;
    while j < games.len()
        invariant
            j <= games.len(),
            lv == desktop_profiles_view(games@).map_values(|g: (Seq<char>, Seq<char>)| g.0),
            strings_view(listed@) == lv.take(j as int),
        decreases games.len() - j,
    {
        let t = games[j].app_id.clone();
        proof { crate::text::lemma_strings_view_push(listed@, t); }
        listed.push(t);
        assert(lv.take(j as int + 1) =~= lv.take(j as int).push(games@[j as int].app_id@));
        j = j + 1;
    }
    assert(lv.take(games.len() as int) =~= lv);
    let ghost fv = strings_view(found@);
    let mut out: Vec<String> = Vec::new();
    let mut i: usize = 0;
    while i < found.len()
        invariant
            i <= found.len(),
            fv == strings_view(found@),
            strings_view(listed@) == lv,
            strings_view(out@) == installed_of(fv.take(i as int), lv),
        decreases found.len() - i,
    {
        proof {
            assert(fv.take(i as int + 1).drop_last() =~= fv.take(i as int));
            assert(fv.take(i as int + 1).last() == found@[i as int]@);
        }
        if holds_text(&listed, &found[i]) {
            let t = found[i].clone();
            proof { crate::text::lemma_strings_view_push(out@, t); }
            out.push(t);
        }
        i = i + 1;
    }
    assert(fv.take(found.len() as int) =~= fv);
    out
}

/// Whether removing the ids removes a slot file with this text: its trimmed
/// text is one of them.
pub fn removes_slot(content: &str, ids: &Vec<String>) -> (r: bool)
    ensures
        r == strings_view(ids@).contains(crate::text::trimmed(content@)),
{
    let t = crate::text::trim_text(content);
    holds_text(ids, &t)
}


/// The id a search result is shown under: its game id, else its app id,
/// else `0`.
pub open spec fn shown_id(game_id: Option<JsonValue>, app_id: Option<JsonValue>) -> Seq<char> {
    let a = value_text(game_id);
    let b = value_text(app_id);
    let id = if a.len() > 0 { a } else { b };
    if id.len() == 0 { "0"@ } else { id }
}

pub fn display_id(result: &SearchResult) -> (r: String)
    ensures
        r@ == shown_id(result.game_id, result.app_id),
{
    let a = val_to_string(result.game_id.as_ref());
    let b = val_to_string(result.app_id.as_ref());
    proof {
        reveal_strlit("");
        if a@.len() == 0 {
            assert(a@ =~= ""@);
        }
        if b@.len() == 0 {
            assert(b@ =~= ""@);
        }
    }
    let id = if !crate::text::text_eq(&a, "") { a } else { b };
    if crate::text::text_eq(&id, "") {
        proof {
            reveal_strlit("0");
        }
        "0".to_string()
    } else {
        id
    }
}

} // verus!
