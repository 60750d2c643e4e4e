//! The decisions of the update commands: which games are checked, what an app
//! manifest's install state says, how a correction rewrites the app manifest
//! and which manifests it keeps, and how missing relationships are healed.
use vstd::prelude::*;
use crate::api::GameHierarchy;
use crate::app_list::{GameProfile, ProfileModel, holds_text, lookup_pair, pairs_view, profiles_view};
use crate::commands::steam_install::{
    depot_ids, dlc_depot_ids, dlc_ids, ids_of_depots, ids_of_dlc_depots, ids_of_dlcs, put_all, put_base_types, with_all,
    with_base_types,
};
use crate::direct_download::downloader::{hex_bytes, hex_decode};
use crate::downloader::manifest_magic;
use crate::text::{concat, concat3, decimal, decimal_string, has_prefix, contains_text, parse_u32, parse_u32_text, strings_view, text_eq};
use crate::utils::vdf::{VdfValue, node_of};
use crate::vdf_injector::with_key;
use crate::vdf_model::{VdfNode, node_get, node_insert, parse_document};
use crate::watcher::{FetchedInfo, cache_view, depots_view, flags_need_update, scan_verdict};

verus! {

// ---------------------------------------------------------------------------
// Which games are checked
// ---------------------------------------------------------------------------

pub open spec fn profile_ids(gs: Seq<ProfileModel>) -> Seq<Seq<char>> {
    gs.map_values(|g: ProfileModel| g.app_id)
}

/// The games the install-state check looks at: each id at its first
/// appearance, unless that entry sits under a parent.
pub open spec fn flag_targets(gs: Seq<ProfileModel>) -> Seq<Seq<char>>
    decreases gs.len(),
{
    if gs.len() == 0 {
        Seq::empty()
    } else {
        let rest = flag_targets(gs.drop_last());
        let g = gs.last();
        if profile_ids(gs.drop_last()).contains(g.app_id) || g.parent_id is Some { rest } else { rest.push(g.app_id) }
    }
}

/// Whether a library entry's name makes it worth a build check.
pub open spec fn update_candidate(name: Seq<char>) -> bool {
    !(has_prefix(name, "Depot ("@) || contains_text(name, "(Content)"@))
}

/// The games a build check looks at: entries whose names are worth it (and,
/// when `skip_children`, that sit under no parent), each id once.
pub open spec fn build_targets(gs: Seq<ProfileModel>, skip_children: bool) -> Seq<Seq<char>>
    decreases gs.len(),
{
    if gs.len() == 0 {
        Seq::empty()
    } else {
        let rest = build_targets(gs.drop_last(), skip_children);
        let g = gs.last();
        if !update_candidate(g.name) || (skip_children && g.parent_id is Some) || rest.contains(g.app_id) {
            rest
        } else {
            rest.push(g.app_id)
        }
    }
}

/// The games whose install state is checked.
pub fn flag_check_targets(games: &Vec<GameProfile>) -> (r: Vec<String>)
    ensures
        strings_view(r@) == flag_targets(profiles_view(games@)),
{
    let ghost gv = profiles_view(games@);
    let mut seen: Vec<String> = Vec::new();
    let mut r: Vec<String> = Vec::new();
    let mut i: usize = 0;
    while i < games.len()
        invariant
            i <= games.len(),
            gv == profiles_view(games@),
            strings_view(seen@) == profile_ids(gv.take(i as int)),
            strings_view(r@) == flag_targets(gv.take(i as int)),
        decreases games.len() - i,
    {
        let g = &games[i];
        proof {
            assert(gv.take(i as int + 1).drop_last() =~= gv.take(i as int));
            assert(gv.take(i as int + 1).last() == g@);
            assert(profile_ids(gv.take(i as int + 1)) =~= profile_ids(gv.take(i as int)).push(g.app_id@));
        }
        let dup = holds_text(&seen, &g.app_id);
        let t = g.app_id.clone();
        proof { crate::text::lemma_strings_view_push(seen@, t); }
        seen.push(t);
        if !dup && g.parent_id.is_none() {
            let u = g.app_id.clone();
            proof { crate::text::lemma_strings_view_push(r@, u); }
            r.push(u);
        }
        i = i + 1;
    }
    assert(gv.take(games.len() as int) =~= gv);
    r
}

/// The games whose build is checked.
pub fn build_check_targets(games: &Vec<GameProfile>, skip_children: bool) -> (r: Vec<String>)
    ensures
        strings_view(r@) == build_targets(profiles_view(games@), skip_children),
{
    let ghost gv = profiles_view(games@);
    let mut r: Vec<String> = Vec::new();
    let mut i: usize = 0;
    while i < games.len()
        invariant
            i <= games.len(),
            gv == profiles_view(games@),
            strings_view(r@) == build_targets(gv.take(i as int), skip_children),
        decreases games.len() - i,
    {
        let g = &games[i];
        proof {
            assert(gv.take(i as int + 1).drop_last() =~= gv.take(i as int));
            assert(gv.take(i as int + 1).last() == g@);
        }
        let worth = crate::watcher::is_update_candidate(&g.name);
        if worth && !(skip_children && g.parent_id.is_some()) && !holds_text(&r, &g.app_id) {
            let u = g.app_id.clone();
            proof { crate::text::lemma_strings_view_push(r@, u); }
            r.push(u);
        }
        i = i + 1;
    }
    assert(gv.take(games.len() as int) =~= gv);
    r
}

// ---------------------------------------------------------------------------
// The install state
// ---------------------------------------------------------------------------

/// The install state an app manifest records, read through the document
/// tree: the `StateFlags` text under `AppState`, as a 32-bit number.
pub open spec fn tree_state_flags(content: Seq<char>) -> Option<u32> {
    match node_get(parse_document(content), "AppState"@) {
        Some(a) => match node_get(a, "StateFlags"@) {
            Some(VdfNode::Str(s)) => parse_u32(s),
            _ => None,
        },
        None => None,
    }
}

/// Why an app manifest needs an update: `StateFlags: {flags}` when its install
/// state asks for one.
pub open spec fn flag_reason_of(content: Seq<char>) -> Option<Seq<char>> {
    match tree_state_flags(content) {
        Some(f) => if flags_need_update(f) { Some("StateFlags: "@ + decimal(f as nat)) } else { None },
        None => None,
    }
}

pub fn flag_reason(content: &str) -> (r: Option<String>)
    ensures
        match flag_reason_of(content@) {
            Some(t) => r is Some && r->0@ == t,
            None => r is None,
        },
{
    let root = match crate::utils::vdf::VdfParser::parse(content) {
        Some(v) => v,
        None => return None,
    };
    let a = match root.find_key("AppState") {
        Some(a) => a,
        None => return None,
    };
    let f = match a.find_key("StateFlags") {
        Some(f) => f,
        None => return None,
    };
    let s = match f.get_str() {
        Some(s) => s,
        None => return None,
    };
    let flags = match parse_u32_text(s) {
        Some(n) => n,
        None => return None,
    };
    if crate::watcher::state_requires_update(flags) {
        Some(concat("StateFlags: ", &decimal_string(flags as u64)))
    } else {
        None
    }
}

// ---------------------------------------------------------------------------
// The correction of an app manifest
// ---------------------------------------------------------------------------

/// A string value replaced by `s`; an object is left as it is.
pub open spec fn with_text(v: VdfNode, s: Seq<char>) -> VdfNode {
    match v {
        VdfNode::Str(_) => VdfNode::Str(s),
        VdfNode::Obj(_) => v,
    }
}

/// The string stored under `key` replaced by `s`.
pub open spec fn set_text_under(v: VdfNode, key: Seq<char>, s: Seq<char>) -> VdfNode {
    match node_get(v, key) {
        Some(c) => node_insert(v, key, with_text(c, s)),
        None => v,
    }
}

/// The first entry whose key is exactly `k`.
pub open spec fn exact_index(es: Seq<(Seq<char>, VdfNode)>, k: Seq<char>) -> Option<int>
    decreases es.len(),
{
    if es.len() == 0 {
        None
    } else {
        match exact_index(es.drop_last(), k) {
            Some(i) => Some(i),
            None => if es.last().0 == k { Some(es.len() - 1) } else { None },
        }
    }
}

/// The depot entry `did` pointed at manifest `gid`.
pub open spec fn repoint(es: Seq<(Seq<char>, VdfNode)>, did: Seq<char>, gid: Seq<char>) -> Seq<(Seq<char>, VdfNode)> {
    match exact_index(es, did) {
        Some(i) => es.update(i, (es[i].0, set_text_under(es[i].1, "manifest"@, gid))),
        None => es,
    }
}

pub open spec fn repoint_all(es: Seq<(Seq<char>, VdfNode)>, gids: Seq<(Seq<char>, Seq<char>)>) -> Seq<(Seq<char>, VdfNode)>
    decreases gids.len(),
{
    if gids.len() == 0 {
        es
    } else {
        repoint(repoint_all(es, gids.drop_last()), gids.last().0, gids.last().1)
    }
}

pub open spec fn repointed(v: VdfNode, gids: Seq<(Seq<char>, Seq<char>)>) -> VdfNode {
    match v {
        VdfNode::Obj(es) => VdfNode::Obj(repoint_all(es, gids)),
        VdfNode::Str(_) => v,
    }
}

/// The `AppState` block of a corrected app manifest: installed (`StateFlags`
/// 4), each installed depot pointed at its current manifest.
pub open spec fn corrected_state(a: VdfNode, gids: Seq<(Seq<char>, Seq<char>)>) -> VdfNode {
    let a1 = set_text_under(a, "StateFlags"@, "4"@);
    match node_get(a1, "InstalledDepots"@) {
        Some(inst) => node_insert(a1, "InstalledDepots"@, repointed(inst, gids)),
        None => a1,
    }
}

/// A corrected app manifest.
pub open spec fn corrected_acf(root: VdfNode, gids: Seq<(Seq<char>, Seq<char>)>) -> VdfNode {
    match node_get(root, "AppState"@) {
        Some(a) => node_insert(root, "AppState"@, corrected_state(a, gids)),
        None => root,
    }
}

fn set_text(v: &mut VdfValue, key: &str, s: &str)
    ensures
        final(v)@ == set_text_under(old(v)@, key@, s@),
{
    match v.get_mut(key) {
        Some(c) => {
            if c.get_str().is_some() {
                *c = VdfValue::Str(s.to_string());
            }
        },
        None => {},
    }
}

fn repoint_entries(es: &mut Vec<(String, VdfValue)>, did: &str, gid: &str)
    ensures
        crate::utils::vdf::entries_of(final(es)@) == repoint(crate::utils::vdf::entries_of(old(es)@), did@, gid@),
{
    let ghost ev = crate::utils::vdf::entries_of(es@);
    proof { crate::utils::vdf::lemma_entries_of(es@); }
    let mut i: usize = 0;
    while i < es.len()
        invariant
            i <= es.len(),
            ev == crate::utils::vdf::entries_of(es@),
            es@ == old(es)@,
            ev.len() == es.len(),
            forall|j: int| 0 <= j < es.len() ==> #[trigger] ev[j] == (es@[j].0@, (es@[j].1)@),
            exact_index(ev.take(i as int), did@) is None,
        decreases es.len() - i,
    {
        proof {
            assert(ev.take(i as int + 1).drop_last() =~= ev.take(i as int));
            assert(ev.take(i as int + 1).last() == ev[i as int]);
        }
        if text_eq(&es[i].0, did) {
            assert(exact_index(ev.take(i as int + 1), did@) == Some(i as int));
            proof { lemma_exact_index_prefix(ev, did@, i as int + 1); }
            let ghost old_es = es@;
            proof { crate::utils::vdf::lemma_entries_of_update(old_es, i as int); }
            let (k, mut val) = es.remove(i);
            let ghost v0 = val@;
            assert(v0 == ev[i as int].1);
            set_text(&mut val, "manifest", gid);
            let ghost e = (k, val);
            es.insert(i, (k, val));
            proof {
                assert(es@ =~= old_es.update(i as int, e));
                assert(e.0 == old_es[i as int].0);
                assert(crate::utils::vdf::entries_of(old_es.update(i as int, e))
                    == ev.update(i as int, (ev[i as int].0, node_of(&e.1))));
                assert(node_of(&e.1) == set_text_under(ev[i as int].1, "manifest"@, gid@));
            }
            return;
        }
        i = i + 1;
    }
    assert(ev.take(es.len() as int) =~= ev);
}

proof fn lemma_exact_index_prefix(es: Seq<(Seq<char>, VdfNode)>, k: Seq<char>, n: int)
    requires
        0 <= n <= es.len(),
        exact_index(es.take(n), k) is Some,
    ensures
        exact_index(es, k) == exact_index(es.take(n), k),
    decreases es.len() - n,
{
    if n < es.len() {
        assert(es.drop_last().take(n) =~= es.take(n));
        lemma_exact_index_prefix(es.drop_last(), k, n);
    } else {
        assert(es.take(n) =~= es);
    }
}

fn repoint_value(v: &mut VdfValue, gids: &Vec<(String, String)>)
    ensures
        final(v)@ == repointed(old(v)@, pairs_view(gids@)),
{
    match v {
        VdfValue::Obj(es) => {
            let ghost start = crate::utils::vdf::entries_of(es@);
            let ghost gv = pairs_view(gids@);
            let mut k: usize = 0;
            while k < gids.len()
                invariant
                    k <= gids.len(),
                    gv == pairs_view(gids@),
                    crate::utils::vdf::entries_of(es@) == repoint_all(start, gv.take(k as int)),
                decreases gids.len() - k,
            {
                proof {
                    assert(gv.take(k as int + 1).drop_last() =~= gv.take(k as int));
                    assert(gv.take(k as int + 1).last() == (gids@[k as int].0@, gids@[k as int].1@));
                }
                repoint_entries(es, &gids[k].0, &gids[k].1);
                k = k + 1;
            }
            assert(gv.take(gids.len() as int) =~= gv);
        },
        VdfValue::Str(_) => {},
    }
}

/// Corrects an app manifest after its manifests were replaced: the game is
/// marked installed and each listed depot points at its new manifest.
pub fn correct_acf(root: &mut VdfValue, gids: &Vec<(String, String)>)
    ensures
        final(root)@ == corrected_acf(old(root)@, pairs_view(gids@)),
{
    match root.get_mut("AppState") {
        Some(a) => {
            set_text(a, "StateFlags", "4");
            match a.get_mut("InstalledDepots") {
                Some(inst) => {
                    repoint_value(inst, gids);
                },
                None => {},
            }
        },
        None => {},
    }
}

/// A corrected app manifest whose `AppState` recorded an install state as
/// text records it as installed (`4`), a state that asks for no update.
pub proof fn law_corrected_state(root: VdfNode, gids: Seq<(Seq<char>, Seq<char>)>)
    requires
        node_get(root, "AppState"@) matches Some(a) && node_get(a, "StateFlags"@) matches Some(VdfNode::Str(_)),
    ensures
        node_get(corrected_acf(root, gids), "AppState"@) matches Some(a2)
            && node_get(a2, "StateFlags"@) == Some(VdfNode::Str("4"@)),
        parse_u32("4"@) == Some(4u32),
        !flags_need_update(4),
{
    let a = node_get(root, "AppState"@)->0;
    let c = node_get(a, "StateFlags"@)->0;
    assert(root is Obj);
    assert(a is Obj);
    crate::vdf_model::law_insert_then_get(a, "StateFlags"@, VdfNode::Str("4"@));
    let a1 = set_text_under(a, "StateFlags"@, "4"@);
    assert(a1 == node_insert(a, "StateFlags"@, VdfNode::Str("4"@)));
    reveal_strlit("StateFlags");
    reveal_strlit("InstalledDepots");
    reveal_strlit("4");
    assert(!crate::vdf_model::key_eq("InstalledDepots"@, "StateFlags"@)) by {
        assert(crate::text::ascii_lower("InstalledDepots"@).len() != crate::text::ascii_lower("StateFlags"@).len());
    }
    match node_get(a1, "InstalledDepots"@) {
        Some(inst) => {
            crate::vdf_model::law_insert_keeps_others(a1, "InstalledDepots"@, repointed(inst, gids), "StateFlags"@);
        },
        None => {},
    }
    crate::vdf_model::law_insert_then_get(root, "AppState"@, corrected_state(a, gids));
    assert(crate::text::all_digits("4"@));
    assert(crate::text::digits_value("4"@) == 4) by {
        assert("4"@.len() == 1);
        assert("4"@.last() == '4');
        assert(('4' as u32) == 52);
        assert("4"@.drop_last() =~= Seq::<char>::empty());
        assert(crate::text::digits_value(Seq::<char>::empty()) == 0);
    }
    assert(4u32 & 2u32 == 0u32) by (bit_vector);
}

// ---------------------------------------------------------------------------
// The manifests of a correction
// ---------------------------------------------------------------------------

/// The key a correction uses for a depot: the one stored for it, when it is
/// 32 bytes of hex.
pub open spec fn correction_key_of(keys: Seq<(Seq<char>, Seq<char>)>, depot: Seq<char>) -> Option<Seq<u8>> {
    match lookup_pair(keys, depot) {
        Some(k) => match hex_bytes(k) {
            Some(b) => if b.len() == 32 { Some(b) } else { None },
            None => None,
        },
        None => None,
    }
}

pub fn correction_key(keys: &Vec<(String, String)>, depot_id: &str) -> (r: Option<[u8; 32]>)
    ensures
        match correction_key_of(pairs_view(keys@), depot_id@) {
            Some(b) => r is Some && r->0@ == b,
            None => r is None,
        },
{
    let k = match crate::app_list::find_value(keys, depot_id) {
        Some(k) => k,
        None => return None,
    };
    match hex_decode(&k) {
        Some(b) => {
            if b.len() == 32 {
                let mut a = [0u8; 32];
                let mut i: usize = 0;
                while i < 32
                    invariant
                        i <= 32,
                        b.len() == 32,
                        forall|j: int| 0 <= j < i ==> a@[j] == b@[j],
                    decreases 32 - i,
                {
                    a.set(i, b[i]);
                    i = i + 1;
                }
                assert(a@ =~= b@);
                Some(a)
            } else {
                None
            }
        },
        None => None,
    }
}

/// Where a correction fetches a depot's encrypted manifest.
pub fn correction_url(depot_id: &str, gid: &str) -> (r: String)
    ensures
        r@ == "http://valve.vo.llnwd.net/steampowered/depot/"@ + depot_id@ + "/manifest/"@ + gid@ + "/5"@,
{
    let a = concat3("http://valve.vo.llnwd.net/steampowered/depot/", depot_id, "/manifest/");
    concat3(&a, gid, "/5")
}

/// The manifest a correction writes: the download decrypted and decompressed
/// with the depot's key, when it is longer than 4 bytes and starts with the
/// manifest magic.
pub open spec fn corrected_manifest_of(blob: Seq<u8>, key: Seq<u8>) -> Option<Seq<u8>> {
    match crate::utils::crypto::opened(blob, key) {
        Ok(d) => if d.len() > 4 && manifest_magic(d) { Some(d) } else { None },
        Err(_) => None,
    }
}

pub fn corrected_manifest(blob: &[u8], key: &[u8; 32]) -> (r: Option<Vec<u8>>)
    ensures
        match corrected_manifest_of(blob@, key@) {
            Some(d) => r is Some && r->0@ == d,
            None => r is None,
        },
{
    match crate::utils::crypto::decrypt_and_decompress(blob, key) {
        Ok(d) => {
            if d.len() > 4 && d[0] == 0xD0u8 && d[1] == 0x17u8 && d[2] == 0xF6u8 && d[3] == 0x71u8 {
                Some(d)
            } else {
                None
            }
        },
        Err(_) => None,
    }
}

// ---------------------------------------------------------------------------
// Healing the relationships
// ---------------------------------------------------------------------------

/// A game needs its hierarchy fetched again when no entry has it as parent,
/// or one of its children has no type.
pub open spec fn needs_healing(rels: Seq<(Seq<char>, Seq<char>)>, types: Seq<(Seq<char>, Seq<char>)>, appid: Seq<char>) -> bool {
    let has_children = exists|i: int| 0 <= i < rels.len() && #[trigger] rels[i].1 == appid;
    let missing_types = exists|i: int| 0 <= i < rels.len() && #[trigger] rels[i].1 == appid && lookup_pair(types, rels[i].0) is None;
    !has_children || missing_types
}

pub fn needs_healing_for(rels: &Vec<(String, String)>, types: &Vec<(String, String)>, appid: &str) -> (r: bool)
    ensures
        r == needs_healing(pairs_view(rels@), pairs_view(types@), appid@),
{
    let ghost rv = pairs_view(rels@);
    let ghost tv = pairs_view(types@);
    let mut has_children = false;
    let mut missing = false;
    let mut i: usize = 0;
    while i < rels.len()
        invariant
            i <= rels.len(),
            rv == pairs_view(rels@),
            tv == pairs_view(types@),
            has_children == exists|j: int| 0 <= j < i && #[trigger] rv[j].1 == appid@,
            missing == exists|j: int| 0 <= j < i && #[trigger] rv[j].1 == appid@ && lookup_pair(tv, rv[j].0) is None,
        decreases rels.len() - i,
    {
        assert(rv[i as int] == (rels@[i as int].0@, rels@[i as int].1@));
        let ghost hc0 = has_children;
        let ghost m0 = missing;
        let ghost lacks = lookup_pair(tv, rv[i as int].0) is None;
        if text_eq(&rels[i].1, appid) {
            has_children = true;
            let found = crate::app_list::find_value(types, &rels[i].0);
            if found.is_none() {
                missing = true;
            }
        }
        proof {
            let n = i as int + 1;
            if exists|j: int| 0 <= j < n && #[trigger] rv[j].1 == appid@ {
                let j = choose|j: int| 0 <= j < n && #[trigger] rv[j].1 == appid@;
                if j < i {
                    assert(hc0);
                }
            }
            if hc0 {
                let j = choose|j: int| 0 <= j < i && #[trigger] rv[j].1 == appid@;
                assert(0 <= j < n && rv[j].1 == appid@);
            }
            if rv[i as int].1 == appid@ {
                assert(0 <= i < n && rv[i as int].1 == appid@);
            }
            if exists|j: int| 0 <= j < n && #[trigger] rv[j].1 == appid@ && lookup_pair(tv, rv[j].0) is None {
                let j = choose|j: int| 0 <= j < n && #[trigger] rv[j].1 == appid@ && lookup_pair(tv, rv[j].0) is None;
                if j < i {
                    assert(m0);
                }
            }
            if m0 {
                let j = choose|j: int| 0 <= j < i && #[trigger] rv[j].1 == appid@ && lookup_pair(tv, rv[j].0) is None;
                assert(0 <= j < n && rv[j].1 == appid@ && lookup_pair(tv, rv[j].0) is None);
            }
            if rv[i as int].1 == appid@ && lacks {
                assert(0 <= i < n && rv[i as int].1 == appid@ && lookup_pair(tv, rv[i as int].0) is None);
            }
        }
        i = i + 1;
    }
    !has_children || missing
}

/// The relationships after healing: every DLC, base depot and DLC depot of
/// the hierarchy under the game.
pub open spec fn healed_relationships(rels: Seq<(Seq<char>, Seq<char>)>, appid: Seq<char>, h: GameHierarchy) -> Seq<(Seq<char>, Seq<char>)> {
    with_all(with_all(with_all(rels, dlc_ids(h.dlcs@), appid), depot_ids(h.base_depots@), appid), dlc_depot_ids(h.dlcs@), appid)
}

/// The types after healing: the game `game`, its DLCs `dlc`, its base depots
/// by kind, its DLC depots `depot_dlc`.
pub open spec fn healed_types(types: Seq<(Seq<char>, Seq<char>)>, appid: Seq<char>, h: GameHierarchy) -> Seq<(Seq<char>, Seq<char>)> {
    with_all(with_base_types(with_all(with_key(types, appid, "game"@), dlc_ids(h.dlcs@), "dlc"@), h.base_depots@), dlc_depot_ids(h.dlcs@), "depot_dlc"@)
}

/// Records a game's hierarchy in the relationships and types.
pub fn heal_tables(rels: &mut Vec<(String, String)>, types: &mut Vec<(String, String)>, appid: &str, h: &GameHierarchy)
    ensures
        pairs_view(final(rels)@) == healed_relationships(pairs_view(old(rels)@), appid@, *h),
        pairs_view(final(types)@) == healed_types(pairs_view(old(types)@), appid@, *h),
{
    let dlcs = ids_of_dlcs(&h.dlcs);
    let base = ids_of_depots(&h.base_depots);
    let depots = ids_of_dlc_depots(&h.dlcs);
    put_all(rels, &dlcs, appid);
    put_all(rels, &base, appid);
    put_all(rels, &depots, appid);
    crate::vdf_injector::store_key(types, appid.to_string(), "game".to_string());
    put_all(types, &dlcs, "dlc");
    put_base_types(types, &h.base_depots);
    put_all(types, &depots, "depot_dlc");
}

// ---------------------------------------------------------------------------
// Manifests in the depot cache during an update
// ---------------------------------------------------------------------------

/// A cached manifest is kept when it is over 50 bytes and its first four
/// bytes (`head`, when they could be read) are the manifest magic.
pub fn cached_manifest_ok(size: u64, head: Option<&[u8]>) -> (r: bool)
    ensures
        r == (size > 50 && match head {
            Some(h) => h@.len() >= 4 && manifest_magic(h@),
            None => false,
        }),
{
    size > 50 && head_is_manifest(head)
}

/// Whether the first bytes of a file (when they could be read) are the
/// manifest magic.
pub fn head_is_manifest(head: Option<&[u8]>) -> (r: bool)
    ensures
        r == match head {
            Some(h) => h@.len() >= 4 && manifest_magic(h@),
            None => false,
        },
{
    match head {
        Some(h) => h.len() >= 4 && h[0] == 0xD0u8 && h[1] == 0x17u8 && h[2] == 0xF6u8 && h[3] == 0x71u8,
        None => false,
    }
}


/// The message a pending update shows: the two builds when the local one is
/// known, else that the manifests are outdated.
pub open spec fn pending_message(local: u64, remote: u64) -> Seq<char> {
    if local > 0 {
        "Build "@ + decimal(local as nat) + " \u{2192} "@ + decimal(remote as nat)
    } else {
        "Manifest outdated"@
    }
}

/// An update scan over the library: the ids checked so far and the pending
/// table (id, message, local build, remote build), in order. An entry is
/// checked when its name is worth it, it sits under no parent and its id was
/// not checked before; a checked entry whose information was fetched goes in
/// the table when `scan_verdict` (with the store's build, 0 when it gave
/// none) says it is outdated.
pub open spec fn scan_run(gs: Seq<ProfileModel>, fs: Seq<Option<FetchedInfo>>)
    -> (Seq<Seq<char>>, Seq<(Seq<char>, Seq<char>, u64, u64)>)
    decreases gs.len(),
{
    if gs.len() == 0 {
        (Seq::empty(), Seq::empty())
    } else {
        let (seen, pend) = scan_run(gs.drop_last(), fs);
        let g = gs.last();
        if !update_candidate(g.name) || g.parent_id is Some || seen.contains(g.app_id) {
            (seen, pend)
        } else {
            let seen2 = seen.push(g.app_id);
            match fs[gs.len() - 1] {
                Some(f) => {
                    let r = match f.remote_build {
                        Some(b) => b,
                        None => 0u64,
                    };
                    let (l, need) = scan_verdict(r, f.acf.found, crate::api::opt_text(f.acf.content), cache_view(f.cache),
                        depots_view(f.depots@));
                    if need { (seen2, pend.push((g.app_id, pending_message(l, r), l, r))) } else { (seen2, pend) }
                },
                None => (seen2, pend),
            }
        }
    }
}

pub open spec fn pending_rows_view(ps: Seq<(String, String, u64, u64)>) -> Seq<(Seq<char>, Seq<char>, u64, u64)> {
    ps.map_values(|p: (String, String, u64, u64)| (p.0@, p.1@, p.2, p.3))
}

fn pending_message_text(local: u64, remote: u64) -> (r: String)
    ensures
        r@ == pending_message(local, remote),
{
    if local > 0 {
        let a = decimal_string(local);
        let b = decimal_string(remote);
        let head = concat3("Build ", &a, " \u{2192} ");
        concat(&head, &b)
    } else {
        "Manifest outdated".to_string()
    }
}

/// The update scan: the pending table it leaves, rebuilt from nothing, given
/// what was fetched for each library entry (`fetched[i]` for `games[i]`;
/// `None` when nothing was fetched, as for an entry the scan skips or whose
/// information could not be had).
pub fn scan_for_updates_async(games: &Vec<GameProfile>, fetched: &Vec<Option<FetchedInfo>>) -> (r: Vec<(String, String, u64, u64)>)
    requires
        fetched.len() == games.len(),
    ensures
        pending_rows_view(r@) == scan_run(profiles_view(games@), fetched@).1,
{
    let ghost gv = profiles_view(games@);
    let ghost fv = fetched@;
    let mut seen: Vec<String> = Vec::new();
    let mut pending: Vec<(String, String, u64, u64)> = Vec::new();
    let mut i: usize = 0;
    while i < games.len()
        invariant
            i <= games.len(),
            fetched.len() == games.len(),
            gv == profiles_view(games@),
            fv == fetched@,
            strings_view(seen@) == scan_run(gv.take(i as int), fv).0,
            pending_rows_view(pending@) == scan_run(gv.take(i as int), fv).1,
        decreases games.len() - i,
    {
        proof {
            assert(gv.take(i as int + 1).drop_last() =~= gv.take(i as int));
            assert(gv.take(i as int + 1).last() == games@[i as int]@);
            assert(gv.take(i as int + 1).len() - 1 == i);
        }
        let g = &games[i];
        if crate::watcher::is_update_candidate(&g.name) && g.parent_id.is_none() && !holds_text(&seen, &g.app_id) {
            let id = g.app_id.clone();
            proof { crate::text::lemma_strings_view_push(seen@, id); }
            seen.push(id);
            match &fetched[i] {
                Some(f) => {
                    let remote = match f.remote_build {
                        Some(b) => b,
                        None => 0,
                    };
                    let (local, need) = crate::watcher::scan_update_needed(remote, &f.acf, f.cache.as_ref(), &f.depots);
                    if need {
                        let row = (g.app_id.clone(), pending_message_text(local, remote), local, remote);
                        let ghost before = pending_rows_view(pending@);
                        let ghost rv = (row.0@, row.1@, row.2, row.3);
                        pending.push(row);
                        assert(pending_rows_view(pending@) =~= before.push(rv));
                    }
                },
                None => {},
            }
        }
        i = i + 1;
    }
    assert(gv.take(games.len() as int) =~= gv);
    pending
}

/// An update scan lists each id once, only games worth a check that sit under
/// no parent, and only those the scan's rule finds outdated.
pub proof fn law_scan_table(gs: Seq<ProfileModel>, fs: Seq<Option<FetchedInfo>>)
    ensures
        forall|a: int, b: int| 0 <= a < b < scan_run(gs, fs).1.len() ==>
            (#[trigger] scan_run(gs, fs).1[a]).0 != (#[trigger] scan_run(gs, fs).1[b]).0,
        forall|k: int| 0 <= k < scan_run(gs, fs).1.len() ==> scan_run(gs, fs).0.contains((#[trigger] scan_run(gs, fs).1[k]).0),
        forall|k: int| 0 <= k < scan_run(gs, fs).1.len() ==> exists|i: int| 0 <= i < gs.len()
            && gs[i].app_id == (#[trigger] scan_run(gs, fs).1[k]).0 && update_candidate(gs[i].name) && gs[i].parent_id is None,
    decreases gs.len(),
{
    if gs.len() > 0 {
        let p = gs.drop_last();
        law_scan_table(p, fs);
        let (seen, pend) = scan_run(p, fs);
        let (seen2, pend2) = scan_run(gs, fs);
        let n = gs.len() - 1;
        assert forall|k: int| 0 <= k < pend.len() implies pend2[k] == pend[k] by {}
        assert forall|a: int, b: int| 0 <= a < b < pend2.len() implies (#[trigger] pend2[a]).0 != (#[trigger] pend2[b]).0 by {
            if b >= pend.len() {
                assert(pend2[a] == pend[a]);
            } else {
                assert(pend2[a] == pend[a] && pend2[b] == pend[b]);
            }
        }
        assert forall|k: int| 0 <= k < pend2.len() implies seen2.contains((#[trigger] pend2[k]).0) by {
            if k < pend.len() {
                let j = choose|j: int| 0 <= j < seen.len() && seen[j] == pend[k].0;
                if seen2 != seen {
                    assert(seen2[j] == seen[j]);
                }
            } else {
                assert(seen2[seen.len() as int] == gs[n].app_id);
            }
        }
        assert forall|k: int| 0 <= k < pend2.len() implies exists|i: int| 0 <= i < gs.len()
            && gs[i].app_id == (#[trigger] pend2[k]).0 && update_candidate(gs[i].name) && gs[i].parent_id is None by {
            if k < pend.len() {
                let i = choose|i: int| 0 <= i < p.len() && p[i].app_id == pend[k].0 && update_candidate(p[i].name)
                    && p[i].parent_id is None;
                assert(gs[i] == p[i]);
            } else {
                assert(gs[n].app_id == pend2[k].0);
            }
        }
    }
}

} // verus!
