//! The decisions of a direct download from Steam's content servers: the
//! install folder's name, what a repository archive holds, which ids go on the
//! list, which depots are fetched, and what the app manifest records of them.
use vstd::prelude::*;
use crate::api::{DepotNode, DlcNode, GameHierarchy};
use crate::app_list::{file_stem, file_stem_of, holds_text, pairs_view};
use crate::commands::steam_install::{
    add_missing, depot_ids, dlc_depot_ids, dlc_ids, head_ids, head_list, ids_of_dlc_depots, ids_of_dlcs, kept_depots,
    put_all, put_base_types, push_kept_depots, sort_distinct, sorted_distinct, with_all, with_base_types, with_ids,
};
use crate::direct_download::downloader::{ChunkData, ChunkDataModel, generate_jobs, hex_bytes, hex_decode, jobs_of, jobs_view};
use crate::downloader::{EntryModel, entry_view, open_zip, zip_entries, zip_entry, zip_len, zip_open};
use crate::profiles::last_index_of;
use crate::services::downloader::manifest_parser::{ManifestParser, parse_manifest};
use crate::text::{
    chars_of, decimal, decimal_string, has_suffix, parse_u32, parse_u32_text, parse_u64, parse_u64_text, split_char,
    string_of, strings_view, trim_text, trimmed, lossy_text,
};
use crate::utils::AcfDepotInfo;
use crate::direct_download::state::{DownloadState, DownloadStatus, opt_id};

verus! {

// ---------------------------------------------------------------------------
// The install folder
// ---------------------------------------------------------------------------

/// Whether a character is alphabetic or numeric in Unicode's sense.
pub uninterp spec fn unicode_alphanumeric(c: char) -> bool;

/// What `char::is_alphanumeric` says: for ASCII, exactly the letters and
/// digits; otherwise the Unicode alphabetic and numeric characters.
pub open spec fn alphanumeric_char(c: char) -> bool {
    if (c as u32) < 128 {
        ('0' <= c && c <= '9') || ('a' <= c && c <= 'z') || ('A' <= c && c <= 'Z')
    } else {
        unicode_alphanumeric(c)
    }
}

/// `char::is_alphanumeric`: true exactly for the alphabetic and numeric
/// characters of Unicode.
pub assume_specification[ char::is_alphanumeric ](c: char) -> (b: bool)
    ensures
        b == alphanumeric_char(c),
        (c as u32) >= 128 ==> b == unicode_alphanumeric(c),
;

/// A character kept in a folder name: alphanumeric, a space, `-`, `_` or `.`.
pub open spec fn folder_char(c: char) -> bool {
    alphanumeric_char(c) || c == ' ' || c == '-' || c == '_' || c == '.'
}

/// The characters of a text that a folder name keeps, in order.
pub open spec fn folder_chars(s: Seq<char>) -> Seq<char>
    decreases s.len(),
{
    if s.len() == 0 {
        s
    } else if folder_char(s.last()) {
        folder_chars(s.drop_last()).push(s.last())
    } else {
        folder_chars(s.drop_last())
    }
}

/// The folder a game is installed in: its name with every other character
/// dropped, trimmed.
pub fn install_dir_name(game_name: &str) -> (r: String)
    ensures
        r@ == trimmed(folder_chars(game_name@)),
{
    let cs = chars_of(game_name);
    let mut kept = String::new();
    let mut i: usize = 0;
    while i < cs.len()
        invariant
            i <= cs.len(),
            cs@ == game_name@,
            kept@ == folder_chars(game_name@.take(i as int)),
        decreases cs.len() - i,
    {
        let c = cs[i];
        proof {
            assert(game_name@.take(i as int + 1).drop_last() =~= game_name@.take(i as int));
            assert(game_name@.take(i as int + 1).last() == c);
        }
        if c.is_alphanumeric() || c == ' ' || c == '-' || c == '_' || c == '.' {
            kept.push(c);
        }
        i = i + 1;
    }
    assert(game_name@.take(cs.len() as int) =~= game_name@);
    trim_text(&kept)
}

// ---------------------------------------------------------------------------
// Manifest files
// ---------------------------------------------------------------------------

/// The depot and manifest ids a manifest file's stem names: the first two
/// `_`-separated pieces read as numbers (0 when they are none), when both are
/// positive.
pub open spec fn stem_ids(stem: Seq<char>) -> Option<(u32, u64)> {
    let parts = split_char(stem, '_');
    if parts.len() >= 2 {
        let d: u32 = match parse_u32(parts[0]) {
            Some(n) => n,
            None => 0,
        };
        let g: u64 = match parse_u64(parts[1]) {
            Some(n) => n,
            None => 0,
        };
        if d > 0 && g > 0 { Some((d, g)) } else { None }
    } else {
        None
    }
}

/// The depot and manifest ids of a manifest file `{depot}_{gid}.manifest`.
pub fn manifest_ids(file_name: &str) -> (r: Option<(u32, u64)>)
    ensures
        r == stem_ids(file_stem_of(file_name@)),
{
    let stem = file_stem(file_name);
    let cs = chars_of(&stem);
    let parts = crate::text::split_chars(&cs, '_');
    let ghost ps = parts@.map_values(|v: Vec<char>| v@);
    assert(ps == split_char(stem@, '_'));
    if parts.len() < 2 {
        return None;
    }
    let first = string_of(&parts[0]);
    let second = string_of(&parts[1]);
    assert(first@ == ps[0]);
    assert(second@ == ps[1]);
    let d: u32 = match parse_u32_text(&first) {
        Some(n) => n,
        None => 0,
    };
    let g: u64 = match parse_u64_text(&second) {
        Some(n) => n,
        None => 0,
    };
    if d > 0 && g > 0 { Some((d, g)) } else { None }
}

// ---------------------------------------------------------------------------
// The repository archive
// ---------------------------------------------------------------------------

/// An archive file's name without its folders: the text after its last `/`.
pub open spec fn base_name(n: Seq<char>) -> Seq<char> {
    match last_index_of(n, '/') {
        Some(p) => n.skip(p + 1),
        None => n,
    }
}

/// A manifest file of the archive: its name, contents, and the ids it names.
pub struct RepoManifest {
    pub file_name: String,
    pub data: Vec<u8>,
    pub ids: Option<(u32, u64)>,
}

/// What a repository archive holds: the text of its scripts run together,
/// whether it has any, and its manifest files in archive order.
pub struct Repository {
    pub lua: String,
    pub lua_found: bool,
    pub manifests: Vec<RepoManifest>,
}

pub struct RepoModel {
    pub lua: Seq<char>,
    pub lua_found: bool,
    pub manifests: Seq<(Seq<char>, Seq<u8>, Option<(u32, u64)>)>,
}

pub open spec fn repo_manifests_view(ms: Seq<RepoManifest>) -> Seq<(Seq<char>, Seq<u8>, Option<(u32, u64)>)> {
    ms.map_values(|m: RepoManifest| (m.file_name@, m.data@, m.ids))
}

impl View for Repository {
    type V = RepoModel;

    open spec fn view(&self) -> RepoModel {
        RepoModel { lua: self.lua@, lua_found: self.lua_found, manifests: repo_manifests_view(self.manifests@) }
    }
}

/// What one archive file adds: a `.lua` script its text, when it reads as
/// UTF-8; a `.manifest` file that reads, itself. Others add nothing.
pub open spec fn repo_step(r: RepoModel, e: EntryModel) -> RepoModel {
    match e {
        Some((Some(n), _, data)) => if has_suffix(n, ".lua"@) {
            RepoModel {
                lua: match data {
                    Some(d) => if vstd::utf8::valid_utf8(d) { r.lua + vstd::utf8::decode_utf8(d) } else { r.lua },
                    None => r.lua,
                },
                lua_found: true,
                manifests: r.manifests,
            }
        } else if has_suffix(n, ".manifest"@) {
            match data {
                Some(d) => RepoModel {
                    lua: r.lua,
                    lua_found: r.lua_found,
                    manifests: r.manifests.push((base_name(n), d, stem_ids(file_stem_of(base_name(n))))),
                },
                None => r,
            }
        } else {
            r
        },
        _ => r,
    }
}

pub open spec fn repo_of(es: Seq<EntryModel>) -> RepoModel
    decreases es.len(),
{
    if es.len() == 0 {
        RepoModel { lua: Seq::empty(), lua_found: false, manifests: Seq::empty() }
    } else {
        repo_step(repo_of(es.drop_last()), es.last())
    }
}

/// The file name of an archive path.
pub(crate) fn base_name_of(n: &str) -> (r: String)
    ensures
        r@ == base_name(n@),
{
    let cs = chars_of(n);
    match crate::profiles::last_position(n, '/') {
        Some(p) => {
            proof { crate::profiles::lemma_last_index_of_bounds(n@, '/'); }
            let tail = crate::profiles::slice_chars(&cs, p + 1, cs.len());
            assert(tail@ =~= n@.skip(p + 1));
            string_of(&tail)
        },
        None => n.to_string(),
    }
}

/// Reads a repository archive: `None` when the bytes are no archive.
pub fn unpack_repository(zip_bytes: Vec<u8>) -> (r: Option<Repository>)
    ensures
        match zip_open(zip_bytes@) {
            Some(es) => r is Some && r->0@ == repo_of(es),
            None => r is None,
        },
{
    let ghost bytes = zip_bytes@;
    let mut a = match open_zip(zip_bytes) {
        Some(a) => a,
        None => return None,
    };
    let ghost es = zip_entries(a);
    let n = zip_len(&a);
    let mut lua = String::new();
    let mut lua_found = false;
    let mut manifests: Vec<RepoManifest> = Vec::new();
    proof {
        assert(es.take(0) =~= Seq::<EntryModel>::empty());
        assert(repo_manifests_view(manifests@) =~= Seq::<(Seq<char>, Seq<u8>, Option<(u32, u64)>)>::empty());
        assert(lua@ =~= Seq::<char>::empty());
    }
    let mut i: usize = 0;
    while i < n
        invariant
            i <= n,
            n == es.len(),
            zip_entries(a) == es,
            es == zip_open(bytes)->0,
            (RepoModel { lua: lua@, lua_found, manifests: repo_manifests_view(manifests@) }) == repo_of(es.take(i as int)),
        decreases n - i,
    {
        proof {
            assert(es.take(i as int + 1).drop_last() =~= es.take(i as int));
            assert(es.take(i as int + 1).last() == es[i as int]);
        }
        let e = zip_entry(&mut a, i);
        let ghost before = repo_manifests_view(manifests@);
        match e {
            Some((Some(name), _, data)) => {
                if crate::text::ends_with_str(&name, ".lua") {
                    match data {
                        Some(d) => {
                            match crate::text::utf8_text(d) {
                                Some(t) => {
                                    lua.push_str(&t);
                                },
                                None => {},
                            }
                        },
                        None => {},
                    }
                    lua_found = true;
                } else if crate::text::ends_with_str(&name, ".manifest") {
                    match data {
                        Some(d) => {
                            let file_name = base_name_of(&name);
                            let ids = manifest_ids(&file_name);
                            let m = RepoManifest { file_name, data: d, ids };
                            let ghost mv = (m.file_name@, m.data@, m.ids);
                            manifests.push(m);
                            assert(repo_manifests_view(manifests@) =~= before.push(mv));
                        },
                        None => {},
                    }
                }
            },
            _ => {},
        }
        i = i + 1;
    }
    assert(es.take(n as int) =~= es);
    Some(Repository { lua, lua_found, manifests })
}

/// The text the keys are read from: the scripts' text, or, when there is
/// none, the whole download read as text.
pub fn key_text(lua: &str, raw: &[u8]) -> (r: String)
    ensures
        r@ == if lua@.len() == 0 { lossy_text(raw@) } else { lua@ },
{
    if chars_of(lua).len() == 0 {
        crate::text::lossy_string(raw)
    } else {
        lua.to_string()
    }
}

// ---------------------------------------------------------------------------
// The list
// ---------------------------------------------------------------------------

/// Whether a DLC is taken: all are without a selection.
pub open spec fn chosen(selected: Seq<Seq<char>>, id: Seq<char>) -> bool {
    selected.len() == 0 || selected.contains(id)
}

/// The chosen DLCs with their depots, in the hierarchy's order.
pub open spec fn chosen_dlc_ids(dlcs: Seq<DlcNode>, selected: Seq<Seq<char>>) -> Seq<Seq<char>>
    decreases dlcs.len(),
{
    if dlcs.len() == 0 {
        Seq::empty()
    } else {
        let rest = chosen_dlc_ids(dlcs.drop_last(), selected);
        let d = dlcs.last();
        if chosen(selected, d.app_id@) { rest + seq![d.app_id@] + kept_depots(d.depots@) } else { rest }
    }
}

/// The depots of the chosen DLCs, in the hierarchy's order.
pub open spec fn chosen_depots(dlcs: Seq<DlcNode>, selected: Seq<Seq<char>>) -> Seq<Seq<char>>
    decreases dlcs.len(),
{
    if dlcs.len() == 0 {
        Seq::empty()
    } else {
        let rest = chosen_depots(dlcs.drop_last(), selected);
        let d = dlcs.last();
        if chosen(selected, d.app_id@) { rest + kept_depots(d.depots@) } else { rest }
    }
}

/// The depots a selection allows: the base game's and the chosen DLCs'.
pub open spec fn allowed_depots(h: GameHierarchy, selected: Seq<Seq<char>>) -> Seq<Seq<char>> {
    kept_depots(h.base_depots@) + chosen_depots(h.dlcs@, selected)
}

pub open spec fn key_ids(keys: Seq<(Seq<char>, Seq<char>)>) -> Seq<Seq<char>> {
    keys.map_values(|k: (Seq<char>, Seq<char>)| k.0)
}

pub open spec fn depot_names(ds: Seq<u32>) -> Seq<Seq<char>> {
    ds.map_values(|d: u32| decimal(d as nat))
}

/// The ids a direct download puts on the list: the app and its derived
/// depot; with the hierarchy its root, base depots and chosen DLCs with their
/// depots; then every depot with a key and every depot with a manifest;
/// distinct, in byte order.
pub open spec fn download_ids(
    appid: Seq<char>,
    h: Option<GameHierarchy>,
    selected: Seq<Seq<char>>,
    keys: Seq<(Seq<char>, Seq<char>)>,
    manifest_depots: Seq<u32>,
) -> Seq<Seq<char>> {
    sorted_distinct(with_ids(with_ids(listed_ids(appid, h, selected), key_ids(keys)), depot_names(manifest_depots)))
}

/// The app, its derived depot, and with the hierarchy its root, base depots
/// and chosen DLCs with their depots.
pub open spec fn listed_ids(appid: Seq<char>, h: Option<GameHierarchy>, selected: Seq<Seq<char>>) -> Seq<Seq<char>> {
    match h {
        Some(h) => head_ids(appid).push(h.root_id@) + kept_depots(h.base_depots@) + chosen_dlc_ids(h.dlcs@, selected),
        None => head_ids(appid),
    }
}

fn listed_list(appid: &str, hierarchy: Option<&GameHierarchy>, selected: &Vec<String>) -> (r: Vec<String>)
    ensures
        strings_view(r@) == listed_ids(appid@, match hierarchy {
            Some(h) => Some(*h),
            None => None,
        }, strings_view(selected@)),
{
    let mut ids = head_list(appid);
    match hierarchy {
        Some(h) => {
            let root = h.root_id.clone();
            proof { crate::text::lemma_strings_view_push(ids@, root); }
            ids.push(root);
            push_kept_depots(&mut ids, &h.base_depots);
            let ghost base = strings_view(ids@);
            let any = selected.len() > 0;
            let mut k: usize = 0;
            while k < h.dlcs.len()
                invariant
                    k <= h.dlcs.len(),
                    any == (selected@.len() > 0),
                    strings_view(ids@) == base + chosen_dlc_ids(h.dlcs@.take(k as int), strings_view(selected@)),
                decreases h.dlcs.len() - k,
            {
                proof {
                    assert(h.dlcs@.take(k as int + 1).drop_last() =~= h.dlcs@.take(k as int));
                    assert(h.dlcs@.take(k as int + 1).last() == h.dlcs@[k as int]);
                }
                let d = &h.dlcs[k];
                if !any || holds_text(selected, &d.app_id) {
                    let t = d.app_id.clone();
                    proof { crate::text::lemma_strings_view_push(ids@, t); }
                    ids.push(t);
                    push_kept_depots(&mut ids, &d.depots);
                    assert(strings_view(ids@) =~= base + chosen_dlc_ids(h.dlcs@.take(k as int + 1), strings_view(selected@)));
                }
                k = k + 1;
            }
            assert(h.dlcs@.take(h.dlcs.len() as int) =~= h.dlcs@);
            ids
        },
        None => ids,
    }
}

fn key_id_list(keys: &Vec<(String, String)>) -> (r: Vec<String>)
    ensures
        strings_view(r@) == key_ids(pairs_view(keys@)),
{
    let mut firsts: Vec<String> = Vec::new();
    let mut i: usize = 0;
    while i < keys.len()
        invariant
            i <= keys.len(),
            strings_view(firsts@) == key_ids(pairs_view(keys@)).take(i as int),
        decreases keys.len() - i,
    {
        let t = keys[i].0.clone();
        proof { crate::text::lemma_strings_view_push(firsts@, t); }
        firsts.push(t);
        assert(key_ids(pairs_view(keys@)).take(i as int + 1) =~= key_ids(pairs_view(keys@)).take(i as int).push(keys@[i as int].0@));
        i = i + 1;
    }
    assert(key_ids(pairs_view(keys@)).take(keys.len() as int) =~= key_ids(pairs_view(keys@)));
    firsts
}

pub(crate) fn depot_name_list(ds: &Vec<u32>) -> (r: Vec<String>)
    ensures
        strings_view(r@) == depot_names(ds@),
{
    let mut names: Vec<String> = Vec::new();
    let mut j: usize = 0;
    while j < ds.len()
        invariant
            j <= ds.len(),
            strings_view(names@) == depot_names(ds@).take(j as int),
        decreases ds.len() - j,
    {
        let t = decimal_string(ds[j] as u64);
        proof { crate::text::lemma_strings_view_push(names@, t); }
        names.push(t);
        assert(depot_names(ds@).take(j as int + 1) =~= depot_names(ds@).take(j as int).push(decimal(ds@[j as int] as nat)));
        j = j + 1;
    }
    assert(depot_names(ds@).take(ds.len() as int) =~= depot_names(ds@));
    names
}

pub fn download_list_ids(
    appid: &str,
    hierarchy: Option<&GameHierarchy>,
    selected: &Vec<String>,
    keys: &Vec<(String, String)>,
    manifest_depots: &Vec<u32>,
) -> (r: Vec<String>)
    ensures
        strings_view(r@) == download_ids(appid@, match hierarchy {
            Some(h) => Some(*h),
            None => None,
        }, strings_view(selected@), pairs_view(keys@), manifest_depots@),
{
    let mut ids = listed_list(appid, hierarchy, selected);
    let firsts = key_id_list(keys);
    add_missing(&mut ids, &firsts);
    let names = depot_name_list(manifest_depots);
    add_missing(&mut ids, &names);
    sort_distinct(&ids)
}

/// Every depot with a key and every depot with a manifest goes on a direct
/// download's list, and so does the app; the list is in byte order without
/// repeats.
pub proof fn law_download_list(
    appid: Seq<char>,
    h: Option<GameHierarchy>,
    selected: Seq<Seq<char>>,
    keys: Seq<(Seq<char>, Seq<char>)>,
    manifest_depots: Seq<u32>,
)
    ensures
        crate::commands::steam_install::byte_sorted(download_ids(appid, h, selected, keys, manifest_depots)),
        download_ids(appid, h, selected, keys, manifest_depots).contains(appid),
        forall|i: int| 0 <= i < keys.len() ==> download_ids(appid, h, selected, keys, manifest_depots).contains(#[trigger] keys[i].0),
        forall|i: int| 0 <= i < manifest_depots.len()
            ==> download_ids(appid, h, selected, keys, manifest_depots).contains(decimal(#[trigger] manifest_depots[i] as nat)),
{
    let listed = listed_ids(appid, h, selected);
    let w1 = with_ids(listed, key_ids(keys));
    let w2 = with_ids(w1, depot_names(manifest_depots));
    assert(head_ids(appid)[0] == appid);
    assert(listed[0] == appid);
    crate::commands::steam_install::lemma_with_ids_contains(listed, key_ids(keys));
    crate::commands::steam_install::lemma_with_ids_contains(w1, depot_names(manifest_depots));
    crate::commands::steam_install::law_sorted_distinct(w2);
    assert(w2.contains(appid));
    assert forall|i: int| 0 <= i < keys.len() implies download_ids(appid, h, selected, keys, manifest_depots).contains(#[trigger] keys[i].0) by {
        assert(key_ids(keys)[i] == keys[i].0);
        assert(w2.contains(keys[i].0));
    }
    assert forall|i: int| 0 <= i < manifest_depots.len()
        implies download_ids(appid, h, selected, keys, manifest_depots).contains(decimal(#[trigger] manifest_depots[i] as nat)) by {
        assert(depot_names(manifest_depots)[i] == decimal(manifest_depots[i] as nat));
        assert(w2.contains(decimal(manifest_depots[i] as nat)));
    }
}

/// The depots a selection allows.
pub fn allowed_depot_ids(h: &GameHierarchy, selected: &Vec<String>) -> (r: Vec<String>)
    ensures
        strings_view(r@) == allowed_depots(*h, strings_view(selected@)),
{
    let mut ids: Vec<String> = Vec::new();
    assert(strings_view(ids@) =~= Seq::<Seq<char>>::empty());
    push_kept_depots(&mut ids, &h.base_depots);
    let ghost base = strings_view(ids@);
    let any = selected.len() > 0;
    let mut k: usize = 0;
    while k < h.dlcs.len()
        invariant
            k <= h.dlcs.len(),
            any == (selected@.len() > 0),
            strings_view(ids@) == base + chosen_depots(h.dlcs@.take(k as int), strings_view(selected@)),
        decreases h.dlcs.len() - k,
    {
        proof {
            assert(h.dlcs@.take(k as int + 1).drop_last() =~= h.dlcs@.take(k as int));
            assert(h.dlcs@.take(k as int + 1).last() == h.dlcs@[k as int]);
        }
        let d = &h.dlcs[k];
        if !any || holds_text(selected, &d.app_id) {
            push_kept_depots(&mut ids, &d.depots);
            assert(strings_view(ids@) =~= base + chosen_depots(h.dlcs@.take(k as int + 1), strings_view(selected@)));
        }
        k = k + 1;
    }
    assert(h.dlcs@.take(h.dlcs.len() as int) =~= h.dlcs@);
    ids
}

/// The types a direct download records: every DLC `dlc`, the base depots by
/// kind, every DLC depot `depot_dlc`.
pub open spec fn download_types(t: Seq<(Seq<char>, Seq<char>)>, h: GameHierarchy) -> Seq<(Seq<char>, Seq<char>)> {
    with_all(with_base_types(with_all(t, dlc_ids(h.dlcs@), "dlc"@), h.base_depots@), dlc_depot_ids(h.dlcs@), "depot_dlc"@)
}

pub fn record_download_types(types: &mut Vec<(String, String)>, h: &GameHierarchy)
    ensures
        pairs_view(final(types)@) == download_types(pairs_view(old(types)@), *h),
{
    let dlcs = ids_of_dlcs(&h.dlcs);
    put_all(types, &dlcs, "dlc");
    put_base_types(types, &h.base_depots);
    let depots = ids_of_dlc_depots(&h.dlcs);
    put_all(types, &depots, "depot_dlc");
}

// ---------------------------------------------------------------------------
// The depots to fetch
// ---------------------------------------------------------------------------

/// A depot to fetch: its id, manifest id, key and chunk jobs.
pub struct DepotPlan {
    pub depot_id: u32,
    pub gid: u64,
    pub key: [u8; 32],
    pub jobs: Vec<ChunkData>,
}

pub struct DepotPlanModel {
    pub depot_id: u32,
    pub gid: u64,
    pub key: Seq<u8>,
    pub jobs: Seq<ChunkDataModel>,
}

impl View for DepotPlan {
    type V = DepotPlanModel;

    open spec fn view(&self) -> DepotPlanModel {
        DepotPlanModel { depot_id: self.depot_id, gid: self.gid, key: self.key@, jobs: jobs_view(self.jobs@) }
    }
}

pub open spec fn plans_view(ps: Seq<DepotPlan>) -> Seq<DepotPlanModel> {
    ps.map_values(|p: DepotPlan| p@)
}

/// Whether a depot may be fetched: with a selection and some allowed depots,
/// only an allowed one.
pub open spec fn may_fetch(id: Seq<char>, allowed: Seq<Seq<char>>, filtering: bool) -> bool {
    if filtering && allowed.len() > 0 { allowed.contains(id) } else { true }
}

/// The manifest found for a depot: the last one found for it.
pub open spec fn manifest_for(found: Seq<(u32, u64, Seq<u8>)>, depot: u32) -> Option<(u64, Seq<u8>)>
    decreases found.len(),
{
    if found.len() == 0 {
        None
    } else if found.last().0 == depot {
        Some((found.last().1, found.last().2))
    } else {
        manifest_for(found.drop_last(), depot)
    }
}

pub open spec fn found_view(fs: Seq<(u32, u64, Vec<u8>)>) -> Seq<(u32, u64, Seq<u8>)> {
    fs.map_values(|f: (u32, u64, Vec<u8>)| (f.0, f.1, f.2@))
}

/// The depot a key leads to: its id must be a number, may be fetched, have a
/// manifest that parses, and the key must be 32 bytes of hex.
pub open spec fn plan_of(
    key: (Seq<char>, Seq<char>),
    allowed: Seq<Seq<char>>,
    filtering: bool,
    found: Seq<(u32, u64, Seq<u8>)>,
) -> Option<DepotPlanModel> {
    match parse_u32(key.0) {
        Some(depot) => if may_fetch(key.0, allowed, filtering) {
            match manifest_for(found, depot) {
                Some((gid, data)) => match hex_bytes(key.1) {
                    Some(k) => if k.len() == 32 {
                        match parse_manifest(data) {
                            Ok(fs) => Some(DepotPlanModel { depot_id: depot, gid, key: k, jobs: jobs_of(fs) }),
                            Err(_) => None,
                        }
                    } else {
                        None
                    },
                    None => None,
                },
                None => None,
            }
        } else {
            None
        },
        None => None,
    }
}

/// The depots to fetch, in the keys' order.
pub open spec fn depot_plans(
    keys: Seq<(Seq<char>, Seq<char>)>,
    allowed: Seq<Seq<char>>,
    filtering: bool,
    found: Seq<(u32, u64, Seq<u8>)>,
) -> Seq<DepotPlanModel>
    decreases keys.len(),
{
    if keys.len() == 0 {
        Seq::empty()
    } else {
        let rest = depot_plans(keys.drop_last(), allowed, filtering, found);
        match plan_of(keys.last(), allowed, filtering, found) {
            Some(p) => rest.push(p),
            None => rest,
        }
    }
}

/// The bytes a depot's chunks hold once unpacked.
pub open spec fn jobs_size(js: Seq<ChunkDataModel>) -> int
    decreases js.len(),
{
    if js.len() == 0 { 0 } else { jobs_size(js.drop_last()) + js.last().uncompressed_length }
}

/// The bytes of all the depots.
pub open spec fn plans_size(ps: Seq<DepotPlanModel>) -> int
    decreases ps.len(),
{
    if ps.len() == 0 { 0 } else { plans_size(ps.drop_last()) + jobs_size(ps.last().jobs) }
}

/// A size as a 64-bit number, the largest one when it does not fit.
pub open spec fn capped(n: int) -> u64 {
    if n > u64::MAX { u64::MAX } else { n as u64 }
}

proof fn lemma_jobs_size_nonneg(js: Seq<ChunkDataModel>)
    ensures
        jobs_size(js) >= 0,
    decreases js.len(),
{
    if js.len() > 0 {
        lemma_jobs_size_nonneg(js.drop_last());
    }
}

proof fn lemma_plans_size_nonneg(ps: Seq<DepotPlanModel>)
    ensures
        plans_size(ps) >= 0,
    decreases ps.len(),
{
    if ps.len() > 0 {
        lemma_plans_size_nonneg(ps.drop_last());
        lemma_jobs_size_nonneg(ps.last().jobs);
    }
}

/// The unpacked size of a depot's chunks.
pub fn depot_size(jobs: &Vec<ChunkData>) -> (r: u64)
    ensures
        r == capped(jobs_size(jobs_view(jobs@))),
{
    let ghost jv = jobs_view(jobs@);
    let mut total: u64 = 0;
    let mut i: usize = 0;
    while i < jobs.len()
        invariant
            i <= jobs.len(),
            jv == jobs_view(jobs@),
            total == capped(jobs_size(jv.take(i as int))),
        decreases jobs.len() - i,
    {
        proof {
            assert(jv.take(i as int + 1).drop_last() =~= jv.take(i as int));
            assert(jv[i as int] == jobs@[i as int]@);
            lemma_jobs_size_nonneg(jv.take(i as int));
        }
        total = total.saturating_add(jobs[i].uncompressed_length as u64);
        i = i + 1;
    }
    assert(jv.take(jobs.len() as int) =~= jv);
    total
}

fn manifest_lookup(found: &Vec<(u32, u64, Vec<u8>)>, depot: u32) -> (r: Option<usize>)
    ensures
        match manifest_for(found_view(found@), depot) {
            Some((gid, data)) => r matches Some(i) && i < found.len() && found@[i as int].1 == gid && found@[i as int].2@ == data,
            None => r is None,
        },
{
    let ghost fv = found_view(found@);
    let mut i: usize = found.len();
    assert(fv.take(found.len() as int) =~= fv);
    while i > 0
        invariant
            i <= found.len(),
            fv == found_view(found@),
            manifest_for(fv, depot) == manifest_for(fv.take(i as int), depot),
        decreases i,
    {
        let ghost pre = fv.take(i as int);
        assert(pre.last() == fv[i - 1]);
        assert(pre.drop_last() =~= fv.take(i - 1));
        if found[i - 1].0 == depot {
            return Some(i - 1);
        }
        i = i - 1;
    }
    assert(fv.take(0) =~= Seq::<(u32, u64, Seq<u8>)>::empty());
    None
}

fn key_array(v: &Vec<u8>) -> (r: [u8; 32])
    requires
        v.len() == 32,
    ensures
        r@ == v@,
{
    let mut k = [0u8; 32];
    let mut i: usize = 0;
    while i < 32
        invariant
            i <= 32,
            v.len() == 32,
            forall|j: int| 0 <= j < i ==> k@[j] == v@[j],
        decreases 32 - i,
    {
        k.set(i, v[i]);
        i = i + 1;
    }
    assert(k@ =~= v@);
    k
}

/// The depots to fetch for the keys, with their total unpacked size.
pub fn plan_depots(
    keys: &Vec<(String, String)>,
    allowed: &Vec<String>,
    filtering: bool,
    found: &Vec<(u32, u64, Vec<u8>)>,
) -> (r: (Vec<DepotPlan>, u64))
    ensures
        plans_view(r.0@) == depot_plans(pairs_view(keys@), strings_view(allowed@), filtering, found_view(found@)),
        r.1 == capped(plans_size(plans_view(r.0@))),
{
    let ghost kv = pairs_view(keys@);
    let ghost av = strings_view(allowed@);
    let ghost fv = found_view(found@);
    let use_allowed = filtering && allowed.len() > 0;
    let mut plans: Vec<DepotPlan> = Vec::new();
    let mut total: u64 = 0;
    let mut i: usize = 0;
    while i < keys.len()
        invariant
            i <= keys.len(),
            kv == pairs_view(keys@),
            av == strings_view(allowed@),
            fv == found_view(found@),
            use_allowed == (filtering && av.len() > 0),
            plans_view(plans@) == depot_plans(kv.take(i as int), av, filtering, fv),
            total == capped(plans_size(plans_view(plans@))),
        decreases keys.len() - i,
    {
        proof {
            assert(kv.take(i as int + 1).drop_last() =~= kv.take(i as int));
            assert(kv.take(i as int + 1).last() == kv[i as int]);
            assert(kv[i as int] == (keys@[i as int].0@, keys@[i as int].1@));
        }
        let id = &keys[i].0;
        let ghost planned = plan_of(kv[i as int], av, filtering, fv);
        let mut next: Option<DepotPlan> = None;
        match parse_u32_text(id) {
            Some(depot) => {
                if !use_allowed || holds_text(allowed, id) {
                    match manifest_lookup(found, depot) {
                        Some(j) => {
                            match hex_decode(&keys[i].1) {
                                Some(kb) => {
                                    if kb.len() == 32 {
                                        match ManifestParser::parse(found[j].2.as_slice()) {
                                            Ok(m) => {
                                                let jobs = generate_jobs(&m);
                                                next = Some(DepotPlan { depot_id: depot, gid: found[j].1, key: key_array(&kb), jobs });
                                            },
                                            Err(_) => {},
                                        }
                                    }
                                },
                                None => {},
                            }
                        },
                        None => {},
                    }
                }
            },
            None => {},
        }
        assert(match next {
            Some(p) => planned == Some(p@),
            None => planned is None,
        });
        match next {
            Some(p) => {
                let size = depot_size(&p.jobs);
                let ghost before = plans_view(plans@);
                let ghost pv = p@;
                proof {
                    lemma_plans_size_nonneg(before);
                    lemma_jobs_size_nonneg(pv.jobs);
                }
                total = total.saturating_add(size);
                plans.push(p);
                assert(plans_view(plans@) =~= before.push(pv));
                assert(plans_view(plans@).drop_last() =~= before);
            },
            None => {},
        }
        i = i + 1;
    }
    assert(kv.take(keys.len() as int) =~= kv);
    (plans, total)
}

// ---------------------------------------------------------------------------
// The app manifest
// ---------------------------------------------------------------------------

pub open spec fn acf_entries(ps: Seq<DepotPlanModel>) -> Seq<(u32, AcfDepotInfo)> {
    ps.map_values(|p: DepotPlanModel| (p.depot_id, AcfDepotInfo { gid: p.gid, size: capped(jobs_size(p.jobs)) }))
}

/// The depots the app manifest records: each fetched depot with its manifest
/// id and unpacked size.
pub fn acf_depots(plans: &Vec<DepotPlan>) -> (r: Vec<(u32, AcfDepotInfo)>)
    ensures
        r@ == acf_entries(plans_view(plans@)),
{
    let ghost pv = plans_view(plans@);
    let mut r: Vec<(u32, AcfDepotInfo)> = Vec::new();
    let mut i: usize = 0;
    while i < plans.len()
        invariant
            i <= plans.len(),
            pv == plans_view(plans@),
            r@ == acf_entries(pv).take(i as int),
        decreases plans.len() - i,
    {
        let size = depot_size(&plans[i].jobs);
        assert(pv[i as int] == plans@[i as int]@);
        r.push((plans[i].depot_id, AcfDepotInfo { gid: plans[i].gid, size }));
        assert(acf_entries(pv).take(i as int + 1) =~= r@);
        i = i + 1;
    }
    assert(acf_entries(pv).take(plans.len() as int) =~= acf_entries(pv));
    r
}

/// The build recorded: the store's, 0 when it gives none, 1 when it could not
/// be asked.
pub fn recorded_build(fetched: Option<Option<u64>>) -> (r: u64)
    ensures
        r == match fetched {
            Some(Some(b)) => b,
            Some(None) => 0,
            None => 1,
        },
{
    match fetched {
        Some(Some(b)) => b,
        Some(None) => 0,
        None => 1,
    }
}


/// The start of a direct download: refused while one is running, the state
/// left as it was; otherwise the state turns to initializing for the game and
/// the download is reported as started (the fetching goes on in the
/// background).
pub fn start_direct_download(state: &mut DownloadState, app_id: &str) -> (r: Result<String, String>)
    ensures
        old(state).status is Downloading ==> {
            &&& (r matches Err(m) && m@ == "Download already in progress"@)
            &&& final(state).status == old(state).status
            &&& opt_id(final(state).active_game_id) == opt_id(old(state).active_game_id)
        },
        !(old(state).status is Downloading) ==> {
            &&& (r matches Ok(m) && m@ == "Download Initiated via Morrenus ZIP"@)
            &&& final(state).status == DownloadStatus::Initializing
            &&& opt_id(final(state).active_game_id) == Some(app_id@)
        },
{
    match state.begin(app_id) {
        Ok(()) => Ok("Download Initiated via Morrenus ZIP".to_string()),
        Err(e) => Err(e),
    }
}

} // verus!
