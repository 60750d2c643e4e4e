//! The decisions of a Steam-protocol installation: which library it goes to,
//! which manifests conflict, whether the vault spares a download, which ids go
//! on the injection list, and what is recorded about them.
use vstd::prelude::*;
use crate::api::{DepotNode, DlcNode, GameHierarchy};
use crate::app_list::{bytes_lt, pairs_view};
use crate::game_path::manifest_file_of;
use crate::paths::PathText;
use crate::text::{chars_of, concat, concat3, string_of, strings_view, text_eq};
use crate::vdf_injector::{with_id, with_key};
use crate::registry::{InstallRegistry, InstallSource};

verus! {

/// The outcome of an installation: whether it worked, a message, how many ids
/// went on the list and how many keys were injected.
pub struct InstallResult {
    pub success: bool,
    pub message: String,
    pub applist_ids_count: usize,
    pub keys_injected: usize,
}

/// A DLC offered for installation.
pub struct DlcItem {
    pub app_id: String,
    pub name: String,
    pub depots_count: usize,
    pub available: bool,
}

impl InstallResult {
    /// The report of a finished installation.
    pub fn installed(name: &str, applist_ids_count: usize, keys_injected: usize) -> (r: InstallResult)
        ensures
            r.success,
            r.message@ == name@ + " installed successfully"@,
            r.applist_ids_count == applist_ids_count,
            r.keys_injected == keys_injected,
    {
        InstallResult { success: true, message: concat(name, " installed successfully"), applist_ids_count, keys_injected }
    }
}

/// The library the game goes to: the one chosen, or the Steam folder.
pub fn effective_library(steam_path: &str, library_path: &str) -> (r: String)
    ensures
        r@ == if library_path@.len() == 0 { steam_path@ } else { library_path@ },
{
    if chars_of(library_path).len() == 0 {
        steam_path.to_string()
    } else {
        library_path.to_string()
    }
}

/// The app manifests of the same app in the other libraries, which would
/// conflict with the new one.
pub fn conflicting_manifests(libraries: &Vec<PathText>, effective: &str, appid: &str) -> (r: Vec<PathText>)
    ensures
        r@.map_values(|p: PathText| p@) == conflicts(libraries@.map_values(|p: PathText| p@), effective@, appid@),
{
    let ghost ls = libraries@.map_values(|p: PathText| p@);
    let name = concat3("appmanifest_", appid, ".acf");
    let mut r: Vec<PathText> = Vec::new();
    let mut i: usize = 0;
    while i < libraries.len()
        invariant
            i <= libraries.len(),
            ls == libraries@.map_values(|p: PathText| p@),
            name@ == manifest_file_of(appid@),
            r@.map_values(|p: PathText| p@) == conflicts(ls.take(i as int), effective@, appid@),
        decreases libraries.len() - i,
    {
        proof {
            assert(ls.take(i as int + 1).drop_last() =~= ls.take(i as int));
            assert(ls[i as int] == libraries@[i as int]@);
        }
        let lib = &libraries[i];
        let single = lib.parts.len() == 1 && text_eq(&lib.parts[0], effective);
        proof {
            if lib@.len() == 1 {
                assert(lib@[0] == lib.parts@[0]@);
            }
            if lib@ == seq![effective@] {
                assert(lib.parts@.len() == 1);
                assert(lib.parts@[0]@ == effective@);
            }
            if single {
                assert(lib@ =~= seq![effective@]);
            }
            assert(single == (ls[i as int] == seq![effective@]));
        }
        if !single {
            let p = lib.join("steamapps").join(&name);
            let ghost before = r@.map_values(|q: PathText| q@);
            r.push(p);
            assert(r@.map_values(|q: PathText| q@) =~= before.push(ls[i as int].push("steamapps"@).push(manifest_file_of(appid@))));
        }
        i = i + 1;
    }
    assert(ls.take(libraries.len() as int) =~= ls);
    r
}

/// The other libraries' copies of the app manifest.
pub open spec fn conflicts(libs: Seq<Seq<Seq<char>>>, effective: Seq<char>, appid: Seq<char>) -> Seq<Seq<Seq<char>>>
    decreases libs.len(),
{
    if libs.len() == 0 {
        Seq::empty()
    } else {
        let rest = conflicts(libs.drop_last(), effective, appid);
        if libs.last() == seq![effective] {
            rest
        } else {
            rest.push(libs.last().push("steamapps"@).push(manifest_file_of(appid)))
        }
    }
}

/// What the vault check decided: whether the stored manifests can be used,
/// and whether the download can be skipped (they can, and the script is
/// stored too).
pub struct VaultDecision {
    pub vault_is_valid: bool,
    pub skip_download: bool,
}

/// The vault check. `verification` is the outcome of comparing the stored
/// manifests with the current manifest ids, `None` when the ids could not be
/// fetched (the stored data is then trusted).
pub fn vault_decision(has_manifests: bool, verification: Option<bool>, lua_stored: bool) -> (r: VaultDecision)
    ensures
        r.vault_is_valid == (has_manifests && match verification {
            Some(v) => v,
            None => true,
        }),
        r.skip_download == (r.vault_is_valid && lua_stored),
{
    let valid = has_manifests && match verification {
        Some(v) => v,
        None => true,
    };
    VaultDecision { vault_is_valid: valid, skip_download: valid && lua_stored }
}

/// The depot derived from an app id: its last digit replaced by 1.
pub open spec fn derived_depot(appid: Seq<char>) -> Seq<char> {
    if appid.len() == 0 { appid } else { appid.drop_last().push('1') }
}

pub fn derived_depot_id(appid: &str) -> (r: String)
    ensures
        r@ == derived_depot(appid@),
{
    let mut cs = chars_of(appid);
    let n = cs.len();
    if n > 0 {
        cs.set(n - 1, '1');
        assert(cs@ =~= appid@.drop_last().push('1'));
    }
    string_of(&cs)
}

/// Depots that never go on the list (Steamworks shared redistributables).
pub open spec fn excluded_depot(d: Seq<char>) -> bool {
    d == "228980"@ || d == "228989"@
}

/// The ids of the depots that may go on the list, in order.
pub open spec fn kept_depots(ds: Seq<DepotNode>) -> Seq<Seq<char>>
    decreases ds.len(),
{
    if ds.len() == 0 {
        Seq::empty()
    } else {
        let rest = kept_depots(ds.drop_last());
        if excluded_depot(ds.last().depot_id@) { rest } else { rest.push(ds.last().depot_id@) }
    }
}

/// The selected DLCs with their depots, in the hierarchy's order.
pub open spec fn selected_dlc_ids(dlcs: Seq<DlcNode>, selected: Seq<Seq<char>>) -> Seq<Seq<char>>
    decreases dlcs.len(),
{
    if dlcs.len() == 0 {
        Seq::empty()
    } else {
        let rest = selected_dlc_ids(dlcs.drop_last(), selected);
        let d = dlcs.last();
        if selected.contains(d.app_id@) {
            rest + seq![d.app_id@] + kept_depots(d.depots@)
        } else {
            rest
        }
    }
}

/// The ids with each of `more` added unless already there.
pub open spec fn with_ids(ids: Seq<Seq<char>>, more: Seq<Seq<char>>) -> Seq<Seq<char>>
    decreases more.len(),
{
    if more.len() == 0 {
        ids
    } else {
        with_id(with_ids(ids, more.drop_last()), more.last())
    }
}

/// Where an id goes among ids kept in byte order: the first position, from
/// `i` on, whose id does not sort before it.
pub open spec fn first_not_below(s: Seq<Seq<char>>, x: Seq<char>, i: int) -> int
    decreases s.len() - i,
{
    if i < 0 || i >= s.len() || !bytes_lt(vstd::utf8::encode_utf8(s[i]), vstd::utf8::encode_utf8(x)) {
        i
    } else {
        first_not_below(s, x, i + 1)
    }
}

/// Adds an id to ids kept in byte order, unless it is there already.
pub open spec fn insert_sorted(s: Seq<Seq<char>>, x: Seq<char>) -> Seq<Seq<char>> {
    let i = first_not_below(s, x, 0);
    if 0 <= i < s.len() && s[i] == x { s } else { s.insert(i, x) }
}

/// The distinct ids in byte order (what sorting and removing repeats gives).
pub open spec fn sorted_distinct(ids: Seq<Seq<char>>) -> Seq<Seq<char>>
    decreases ids.len(),
{
    if ids.len() == 0 {
        Seq::empty()
    } else {
        insert_sorted(sorted_distinct(ids.drop_last()), ids.last())
    }
}

/// The first ids: the app and its derived depot when that differs.
pub open spec fn head_ids(appid: Seq<char>) -> Seq<Seq<char>> {
    if derived_depot(appid) != appid { seq![appid, derived_depot(appid)] } else { seq![appid] }
}

/// The ids that go on the list. With the game's hierarchy: the app, its
/// derived depot, the hierarchy's root and base depots, the selected DLCs with
/// their depots, then any other selected DLC; distinct, in byte order.
/// Without it: the app, its derived depot, then each selected DLC once, in
/// order.
pub open spec fn mandatory_ids(appid: Seq<char>, h: Option<GameHierarchy>, selected: Seq<Seq<char>>) -> Seq<Seq<char>> {
    match h {
        Some(h) => {
            let listed = head_ids(appid).push(h.root_id@) + kept_depots(h.base_depots@) + selected_dlc_ids(h.dlcs@, selected);
            sorted_distinct(with_ids(listed, selected))
        },
        None => with_ids(head_ids(appid), selected),
    }
}

pub(crate) fn push_kept_depots(out: &mut Vec<String>, ds: &Vec<DepotNode>)
    ensures
        strings_view(final(out)@) == strings_view(old(out)@) + kept_depots(ds@),
{
    let ghost start = strings_view(out@);
    let mut i: usize = 0;
    while i < ds.len()
        invariant
            i <= ds.len(),
            strings_view(out@) == start + kept_depots(ds@.take(i as int)),
        decreases ds.len() - i,
    {
        proof {
            assert(ds@.take(i as int + 1).drop_last() =~= ds@.take(i as int));
            assert(ds@.take(i as int + 1).last() == ds@[i as int]);
        }
        let d = &ds[i].depot_id;
        if !(text_eq(d, "228980") || text_eq(d, "228989")) {
            let t = d.clone();
            proof { crate::text::lemma_strings_view_push(out@, t); }
            out.push(t);
            assert(strings_view(out@) =~= start + kept_depots(ds@.take(i as int + 1)));
        }
        i = i + 1;
    }
    assert(ds@.take(ds.len() as int) =~= ds@);
}

pub(crate) fn add_missing(out: &mut Vec<String>, more: &Vec<String>)
    ensures
        strings_view(final(out)@) == with_ids(strings_view(old(out)@), strings_view(more@)),
{
    let ghost start = strings_view(out@);
    let ghost mv = strings_view(more@);
    let mut i: usize = 0;
    while i < more.len()
        invariant
            i <= more.len(),
            mv == strings_view(more@),
            strings_view(out@) == with_ids(start, mv.take(i as int)),
        decreases more.len() - i,
    {
        proof {
            assert(mv.take(i as int + 1).drop_last() =~= mv.take(i as int));
            assert(mv[i as int] == more@[i as int]@);
        }
        if !crate::app_list::holds_text(out, &more[i]) {
            let t = more[i].clone();
            proof { crate::text::lemma_strings_view_push(out@, t); }
            out.push(t);
        }
        i = i + 1;
    }
    assert(mv.take(more.len() as int) =~= mv);
}

/// The ids in byte order, each once.
pub fn sort_distinct(ids: &Vec<String>) -> (r: Vec<String>)
    ensures
        strings_view(r@) == sorted_distinct(strings_view(ids@)),
{
    let ghost iv = strings_view(ids@);
    let mut out: Vec<String> = Vec::new();
    let mut i: usize = 0;
    while i < ids.len()
        invariant
            i <= ids.len(),
            iv == strings_view(ids@),
            strings_view(out@) == sorted_distinct(iv.take(i as int)),
        decreases ids.len() - i,
    {
        proof {
            assert(iv.take(i as int + 1).drop_last() =~= iv.take(i as int));
            assert(iv[i as int] == ids@[i as int]@);
        }
        let x = &ids[i];
        let ghost sv = strings_view(out@);
        let mut j: usize = 0;
        while j < out.len() && crate::app_list::bytes_less(out[j].as_str().as_bytes(), x.as_str().as_bytes())
            invariant
                j <= out.len(),
                sv == strings_view(out@),
                first_not_below(sv, x@, 0) == first_not_below(sv, x@, j as int),
            decreases out.len() - j,
        {
            assert(sv[j as int] == out@[j as int]@);
            j = j + 1;
        }
        proof {
            if j < out.len() {
                assert(sv[j as int] == out@[j as int]@);
            }
        }
        let present = j < out.len() && text_eq(&out[j], x);
        if !present {
            let t = x.clone();
            let ghost tv = t@;
            out.insert(j, t);
            assert(strings_view(out@) =~= sv.insert(j as int, tv));
        }
        i = i + 1;
    }
    assert(iv.take(ids.len() as int) =~= iv);
    out
}

/// The app and its derived depot when that differs.
pub fn head_list(appid: &str) -> (r: Vec<String>)
    ensures
        strings_view(r@) == head_ids(appid@),
{
    let mut ids: Vec<String> = Vec::new();
    ids.push(appid.to_string());
    let derived = derived_depot_id(appid);
    if !text_eq(&derived, appid) {
        ids.push(derived);
    }
    assert(strings_view(ids@) =~= head_ids(appid@));
    ids
}

/// The ids that go on the injection list.
pub fn mandatory_ids_for(appid: &str, hierarchy: Option<&GameHierarchy>, selected_dlcs: &Vec<String>) -> (r: Vec<String>)
    ensures
        strings_view(r@) == mandatory_ids(appid@, match hierarchy {
            Some(h) => Some(*h),
            None => None,
        }, strings_view(selected_dlcs@)),
{
    let mut ids = head_list(appid);
    match hierarchy {
        None => {
            add_missing(&mut ids, selected_dlcs);
            ids
        },
        Some(h) => {
            let root = h.root_id.clone();
            proof { crate::text::lemma_strings_view_push(ids@, root); }
            ids.push(root);
            push_kept_depots(&mut ids, &h.base_depots);
            let ghost base = strings_view(ids@);
            let mut k: usize = 0;
            while k < h.dlcs.len()
                invariant
                    k <= h.dlcs.len(),
                    strings_view(ids@) == base + selected_dlc_ids(h.dlcs@.take(k as int), strings_view(selected_dlcs@)),
                decreases h.dlcs.len() - k,
            {
                proof {
                    assert(h.dlcs@.take(k as int + 1).drop_last() =~= h.dlcs@.take(k as int));
                    assert(h.dlcs@.take(k as int + 1).last() == h.dlcs@[k as int]);
                }
                let d = &h.dlcs[k];
                if crate::app_list::holds_text(selected_dlcs, &d.app_id) {
                    let ghost before = strings_view(ids@);
                    let t = d.app_id.clone();
                    proof { crate::text::lemma_strings_view_push(ids@, t); }
                    ids.push(t);
                    push_kept_depots(&mut ids, &d.depots);
                    assert(strings_view(ids@) =~= base + selected_dlc_ids(h.dlcs@.take(k as int + 1), strings_view(selected_dlcs@)));
                }
                k = k + 1;
            }
            assert(h.dlcs@.take(h.dlcs.len() as int) =~= h.dlcs@);
            add_missing(&mut ids, selected_dlcs);
            sort_distinct(&ids)
        },
    }
}

/// The ids that go on the list without the store's hierarchy: those of
/// `mandatory_ids`, then each shared depot of the install script, each once.
pub open spec fn fallback_list(appid: Seq<char>, selected: Seq<Seq<char>>, shared: Seq<u32>) -> Seq<Seq<char>> {
    with_ids(mandatory_ids(appid, None, selected), crate::commands::direct_download::depot_names(shared))
}

pub fn fallback_ids(appid: &str, selected_dlcs: &Vec<String>, shared_depots: &Vec<u32>) -> (r: Vec<String>)
    ensures
        strings_view(r@) == fallback_list(appid@, strings_view(selected_dlcs@), shared_depots@),
{
    let mut ids = mandatory_ids_for(appid, None, selected_dlcs);
    let names = crate::commands::direct_download::depot_name_list(shared_depots);
    add_missing(&mut ids, &names);
    ids
}

/// The relationships after an installation with a hierarchy: every listed id
/// other than the root is recorded as the root's child.
pub open spec fn with_parent(rel: Seq<(Seq<char>, Seq<char>)>, ids: Seq<Seq<char>>, root: Seq<char>) -> Seq<(Seq<char>, Seq<char>)>
    decreases ids.len(),
{
    if ids.len() == 0 {
        rel
    } else {
        let r = with_parent(rel, ids.drop_last(), root);
        if ids.last() == root { r } else { with_key(r, ids.last(), root) }
    }
}

/// Records the listed ids as children of the root.
pub fn record_relationships(relationships: &mut Vec<(String, String)>, final_ids: &Vec<String>, root: &str)
    ensures
        pairs_view(final(relationships)@) == with_parent(pairs_view(old(relationships)@), strings_view(final_ids@), root@),
{
    let ghost start = pairs_view(relationships@);
    let ghost fv = strings_view(final_ids@);
    let mut i: usize = 0;
    while i < final_ids.len()
        invariant
            i <= final_ids.len(),
            fv == strings_view(final_ids@),
            pairs_view(relationships@) == with_parent(start, fv.take(i as int), root@),
        decreases final_ids.len() - i,
    {
        proof {
            assert(fv.take(i as int + 1).drop_last() =~= fv.take(i as int));
            assert(fv[i as int] == final_ids@[i as int]@);
        }
        if !text_eq(&final_ids[i], root) {
            crate::vdf_injector::store_key(relationships, final_ids[i].clone(), root.to_string());
        }
        i = i + 1;
    }
    assert(fv.take(final_ids.len() as int) =~= fv);
}


// ---------------------------------------------------------------------------
// The types table
// ---------------------------------------------------------------------------

/// The table with every id stored with the same value, in order.
pub open spec fn with_all(t: Seq<(Seq<char>, Seq<char>)>, ids: Seq<Seq<char>>, v: Seq<char>) -> Seq<(Seq<char>, Seq<char>)>
    decreases ids.len(),
{
    if ids.len() == 0 {
        t
    } else {
        with_key(with_all(t, ids.drop_last(), v), ids.last(), v)
    }
}

/// The type recorded for a depot of the base game.
pub open spec fn depot_type(d: DepotNode) -> Seq<char> {
    if d.is_dlc_depot { "depot_dlc"@ } else { "depot_base"@ }
}

/// The table with the base game's depots typed, in order.
pub open spec fn with_base_types(t: Seq<(Seq<char>, Seq<char>)>, ds: Seq<DepotNode>) -> Seq<(Seq<char>, Seq<char>)>
    decreases ds.len(),
{
    if ds.len() == 0 {
        t
    } else {
        with_key(with_base_types(t, ds.drop_last()), ds.last().depot_id@, depot_type(ds.last()))
    }
}

/// The ids of the depots, in order.
pub open spec fn depot_ids(ds: Seq<DepotNode>) -> Seq<Seq<char>>
    decreases ds.len(),
{
    if ds.len() == 0 { Seq::empty() } else { depot_ids(ds.drop_last()).push(ds.last().depot_id@) }
}

/// The ids of the DLCs, in order.
pub open spec fn dlc_ids(dlcs: Seq<DlcNode>) -> Seq<Seq<char>>
    decreases dlcs.len(),
{
    if dlcs.len() == 0 { Seq::empty() } else { dlc_ids(dlcs.drop_last()).push(dlcs.last().app_id@) }
}

/// The ids of all the DLCs' depots, DLC after DLC.
pub open spec fn dlc_depot_ids(dlcs: Seq<DlcNode>) -> Seq<Seq<char>>
    decreases dlcs.len(),
{
    if dlcs.len() == 0 { Seq::empty() } else { dlc_depot_ids(dlcs.drop_last()) + depot_ids(dlcs.last().depots@) }
}

/// The table with each DLC on the list typed `dlc` and its depots
/// `depot_dlc`, DLC after DLC.
pub open spec fn with_listed_dlc_types(t: Seq<(Seq<char>, Seq<char>)>, dlcs: Seq<DlcNode>, listed: Seq<Seq<char>>) -> Seq<(Seq<char>, Seq<char>)>
    decreases dlcs.len(),
{
    if dlcs.len() == 0 {
        t
    } else {
        let r = with_listed_dlc_types(t, dlcs.drop_last(), listed);
        let d = dlcs.last();
        if listed.contains(d.app_id@) {
            with_all(with_key(r, d.app_id@, "dlc"@), depot_ids(d.depots@), "depot_dlc"@)
        } else {
            r
        }
    }
}

/// The types an installation records: the base depots, then the listed DLCs
/// with their depots.
pub open spec fn install_types(t: Seq<(Seq<char>, Seq<char>)>, h: GameHierarchy, listed: Seq<Seq<char>>) -> Seq<(Seq<char>, Seq<char>)> {
    with_listed_dlc_types(with_base_types(t, h.base_depots@), h.dlcs@, listed)
}

/// The table with each pair stored in turn.
pub open spec fn with_pairs(t: Seq<(Seq<char>, Seq<char>)>, ps: Seq<(Seq<char>, Seq<char>)>) -> Seq<(Seq<char>, Seq<char>)>
    decreases ps.len(),
{
    if ps.len() == 0 {
        t
    } else {
        with_key(with_pairs(t, ps.drop_last()), ps.last().0, ps.last().1)
    }
}

/// Stores each pair in turn.
pub fn put_pairs(t: &mut Vec<(String, String)>, ps: &Vec<(String, String)>)
    ensures
        pairs_view(final(t)@) == with_pairs(pairs_view(old(t)@), pairs_view(ps@)),
{
    let ghost start = pairs_view(t@);
    let ghost pv = pairs_view(ps@);
    let mut i: usize = 0;
    while i < ps.len()
        invariant
            i <= ps.len(),
            pv == pairs_view(ps@),
            pairs_view(t@) == with_pairs(start, pv.take(i as int)),
        decreases ps.len() - i,
    {
        proof {
            assert(pv.take(i as int + 1).drop_last() =~= pv.take(i as int));
            assert(pv[i as int] == (ps@[i as int].0@, ps@[i as int].1@));
        }
        crate::vdf_injector::store_key(t, ps[i].0.clone(), ps[i].1.clone());
        i = i + 1;
    }
    assert(pv.take(ps.len() as int) =~= pv);
}

/// Stores each id with the same value.
pub fn put_all(t: &mut Vec<(String, String)>, ids: &Vec<String>, v: &str)
    ensures
        pairs_view(final(t)@) == with_all(pairs_view(old(t)@), strings_view(ids@), v@),
{
    let ghost start = pairs_view(t@);
    let ghost iv = strings_view(ids@);
    let mut i: usize = 0;
    while i < ids.len()
        invariant
            i <= ids.len(),
            iv == strings_view(ids@),
            pairs_view(t@) == with_all(start, iv.take(i as int), v@),
        decreases ids.len() - i,
    {
        proof {
            assert(iv.take(i as int + 1).drop_last() =~= iv.take(i as int));
            assert(iv[i as int] == ids@[i as int]@);
        }
        crate::vdf_injector::store_key(t, ids[i].clone(), v.to_string());
        i = i + 1;
    }
    assert(iv.take(ids.len() as int) =~= iv);
}

/// The ids of the depots.
pub fn ids_of_depots(ds: &Vec<DepotNode>) -> (r: Vec<String>)
    ensures
        strings_view(r@) == depot_ids(ds@),
{
    let mut r: Vec<String> = Vec::new();
    let mut i: usize = 0;
    while i < ds.len()
        invariant
            i <= ds.len(),
            strings_view(r@) == depot_ids(ds@.take(i as int)),
        decreases ds.len() - i,
    {
        proof {
            assert(ds@.take(i as int + 1).drop_last() =~= ds@.take(i as int));
        }
        let t = ds[i].depot_id.clone();
        proof { crate::text::lemma_strings_view_push(r@, t); }
        r.push(t);
        i = i + 1;
    }
    assert(ds@.take(ds.len() as int) =~= ds@);
    r
}

/// The ids of the DLCs.
pub fn ids_of_dlcs(dlcs: &Vec<DlcNode>) -> (r: Vec<String>)
    ensures
        strings_view(r@) == dlc_ids(dlcs@),
{
    let mut r: Vec<String> = Vec::new();
    let mut i: usize = 0;
    while i < dlcs.len()
        invariant
            i <= dlcs.len(),
            strings_view(r@) == dlc_ids(dlcs@.take(i as int)),
        decreases dlcs.len() - i,
    {
        proof {
            assert(dlcs@.take(i as int + 1).drop_last() =~= dlcs@.take(i as int));
        }
        let t = dlcs[i].app_id.clone();
        proof { crate::text::lemma_strings_view_push(r@, t); }
        r.push(t);
        i = i + 1;
    }
    assert(dlcs@.take(dlcs.len() as int) =~= dlcs@);
    r
}

/// The ids of all the DLCs' depots.
pub fn ids_of_dlc_depots(dlcs: &Vec<DlcNode>) -> (r: Vec<String>)
    ensures
        strings_view(r@) == dlc_depot_ids(dlcs@),
{
    let mut r: Vec<String> = Vec::new();
    let mut i: usize = 0;
    while i < dlcs.len()
        invariant
            i <= dlcs.len(),
            strings_view(r@) == dlc_depot_ids(dlcs@.take(i as int)),
        decreases dlcs.len() - i,
    {
        proof {
            assert(dlcs@.take(i as int + 1).drop_last() =~= dlcs@.take(i as int));
        }
        let more = ids_of_depots(&dlcs[i].depots);
        let ghost before = strings_view(r@);
        let mut k: usize = 0;
        while k < more.len()
            invariant
                k <= more.len(),
                strings_view(r@) == before + strings_view(more@).take(k as int),
            decreases more.len() - k,
        {
            let t = more[k].clone();
            proof { crate::text::lemma_strings_view_push(r@, t); }
            r.push(t);
            assert(before + strings_view(more@).take(k as int + 1) =~= (before + strings_view(more@).take(k as int)).push(more@[k as int]@));
            k = k + 1;
        }
        assert(strings_view(more@).take(more.len() as int) =~= strings_view(more@));
        i = i + 1;
    }
    assert(dlcs@.take(dlcs.len() as int) =~= dlcs@);
    r
}

/// Types the base game's depots.
pub fn put_base_types(t: &mut Vec<(String, String)>, ds: &Vec<DepotNode>)
    ensures
        pairs_view(final(t)@) == with_base_types(pairs_view(old(t)@), ds@),
{
    let ghost start = pairs_view(t@);
    let mut i: usize = 0;
    while i < ds.len()
        invariant
            i <= ds.len(),
            pairs_view(t@) == with_base_types(start, ds@.take(i as int)),
        decreases ds.len() - i,
    {
        proof {
            assert(ds@.take(i as int + 1).drop_last() =~= ds@.take(i as int));
        }
        let ty = if ds[i].is_dlc_depot { "depot_dlc" } else { "depot_base" };
        crate::vdf_injector::store_key(t, ds[i].depot_id.clone(), ty.to_string());
        i = i + 1;
    }
    assert(ds@.take(ds.len() as int) =~= ds@);
}

/// Records the types an installation knows: the base depots, then each DLC
/// on the list with its depots.
pub fn record_install_types(types: &mut Vec<(String, String)>, h: &GameHierarchy, final_ids: &Vec<String>)
    ensures
        pairs_view(final(types)@) == install_types(pairs_view(old(types)@), *h, strings_view(final_ids@)),
{
    put_base_types(types, &h.base_depots);
    let ghost base = pairs_view(types@);
    let mut k: usize = 0;
    while k < h.dlcs.len()
        invariant
            k <= h.dlcs.len(),
            pairs_view(types@) == with_listed_dlc_types(base, h.dlcs@.take(k as int), strings_view(final_ids@)),
        decreases h.dlcs.len() - k,
    {
        proof {
            assert(h.dlcs@.take(k as int + 1).drop_last() =~= h.dlcs@.take(k as int));
            assert(h.dlcs@.take(k as int + 1).last() == h.dlcs@[k as int]);
        }
        let d = &h.dlcs[k];
        if crate::app_list::holds_text(final_ids, &d.app_id) {
            crate::vdf_injector::store_key(types, d.app_id.clone(), "dlc".to_string());
            let ds = ids_of_depots(&d.depots);
            put_all(types, &ds, "depot_dlc");
        }
        k = k + 1;
    }
    assert(h.dlcs@.take(h.dlcs.len() as int) =~= h.dlcs@);
}

proof fn lemma_bytes_lt_total(a: Seq<u8>, b: Seq<u8>)
    requires
        a != b,
    ensures
        bytes_lt(a, b) || bytes_lt(b, a),
    decreases a.len(),
{
    if a.len() > 0 && b.len() > 0 && a[0] == b[0] {
        if a.drop_first() == b.drop_first() {
            assert(a =~= seq![a[0]] + a.drop_first());
            assert(b =~= seq![b[0]] + b.drop_first());
        }
        lemma_bytes_lt_total(a.drop_first(), b.drop_first());
    } else if a.len() == 0 && b.len() == 0 {
        assert(a =~= b);
    }
}

/// Strictly increasing in byte order.
pub open spec fn byte_sorted(s: Seq<Seq<char>>) -> bool {
    forall|a: int, b: int| 0 <= a < b < s.len() ==>
        bytes_lt(vstd::utf8::encode_utf8(#[trigger] s[a]), vstd::utf8::encode_utf8(#[trigger] s[b]))
}

proof fn lemma_first_not_below(s: Seq<Seq<char>>, x: Seq<char>, i: int)
    requires
        0 <= i <= s.len(),
    ensures
        i <= first_not_below(s, x, i) <= s.len(),
        forall|k: int| i <= k < first_not_below(s, x, i) ==>
            bytes_lt(vstd::utf8::encode_utf8(#[trigger] s[k]), vstd::utf8::encode_utf8(x)),
        first_not_below(s, x, i) < s.len() ==>
            !bytes_lt(vstd::utf8::encode_utf8(s[first_not_below(s, x, i)]), vstd::utf8::encode_utf8(x)),
    decreases s.len() - i,
{
    if i < s.len() && bytes_lt(vstd::utf8::encode_utf8(s[i]), vstd::utf8::encode_utf8(x)) {
        lemma_first_not_below(s, x, i + 1);
    }
}

proof fn lemma_insert_sorted(s: Seq<Seq<char>>, x: Seq<char>)
    requires
        byte_sorted(s),
    ensures
        byte_sorted(insert_sorted(s, x)),
        forall|y: Seq<char>| #[trigger] insert_sorted(s, x).contains(y) <==> (s.contains(y) || y == x),
{
    let p = first_not_below(s, x, 0);
    lemma_first_not_below(s, x, 0);
    let ex = vstd::utf8::encode_utf8(x);
    if 0 <= p < s.len() && s[p] == x {
        assert forall|y: Seq<char>| #[trigger] insert_sorted(s, x).contains(y) <==> (s.contains(y) || y == x) by {
            if y == x {
                assert(s[p] == y);
            }
        }
    } else {
        let r = s.insert(p, x);
        if p < s.len() {
            let ep = vstd::utf8::encode_utf8(s[p]);
            vstd::utf8::encode_utf8_decode_utf8(s[p]);
            vstd::utf8::encode_utf8_decode_utf8(x);
            if ep == ex {
                assert(s[p] == x);
            }
            lemma_bytes_lt_total(ep, ex);
        }
        assert forall|a: int, b: int| 0 <= a < b < r.len() implies
            bytes_lt(vstd::utf8::encode_utf8(#[trigger] r[a]), vstd::utf8::encode_utf8(#[trigger] r[b])) by {
            if b < p {
                assert(r[a] == s[a] && r[b] == s[b]);
            } else if b == p {
                assert(r[a] == s[a] && r[b] == x);
            } else if a < p {
                assert(r[a] == s[a] && r[b] == s[b - 1]);
                assert(bytes_lt(vstd::utf8::encode_utf8(s[a]), ex));
                if b - 1 > p {
                    assert(bytes_lt(vstd::utf8::encode_utf8(s[p]), vstd::utf8::encode_utf8(s[b - 1])));
                    crate::app_list::lemma_bytes_lt_trans(ex, vstd::utf8::encode_utf8(s[p]), vstd::utf8::encode_utf8(s[b - 1]));
                }
                crate::app_list::lemma_bytes_lt_trans(vstd::utf8::encode_utf8(s[a]), ex, vstd::utf8::encode_utf8(s[b - 1]));
            } else if a == p {
                assert(r[a] == x && r[b] == s[b - 1]);
                if b - 1 > p {
                    assert(bytes_lt(vstd::utf8::encode_utf8(s[p]), vstd::utf8::encode_utf8(s[b - 1])));
                    crate::app_list::lemma_bytes_lt_trans(ex, vstd::utf8::encode_utf8(s[p]), vstd::utf8::encode_utf8(s[b - 1]));
                }
            } else {
                assert(r[a] == s[a - 1] && r[b] == s[b - 1]);
            }
        }
        assert forall|y: Seq<char>| #[trigger] insert_sorted(s, x).contains(y) <==> (s.contains(y) || y == x) by {
            if r.contains(y) {
                let k = choose|k: int| 0 <= k < r.len() && r[k] == y;
                if k < p {
                    assert(s[k] == y);
                } else if k > p {
                    assert(s[k - 1] == y);
                }
            }
            if s.contains(y) {
                let k = choose|k: int| 0 <= k < s.len() && s[k] == y;
                if k < p {
                    assert(r[k] == y);
                } else {
                    assert(r[k + 1] == y);
                }
            }
            if y == x {
                assert(r[p] == x);
            }
        }
    }
}

/// Sorting and removing repeats gives each id once, strictly increasing in
/// byte order, and no id that was not there.
pub proof fn law_sorted_distinct(ids: Seq<Seq<char>>)
    ensures
        byte_sorted(sorted_distinct(ids)),
        forall|y: Seq<char>| #[trigger] sorted_distinct(ids).contains(y) <==> ids.contains(y),
    decreases ids.len(),
{
    if ids.len() > 0 {
        let p = ids.drop_last();
        law_sorted_distinct(p);
        lemma_insert_sorted(sorted_distinct(p), ids.last());
        assert forall|y: Seq<char>| #[trigger] sorted_distinct(ids).contains(y) <==> ids.contains(y) by {
            if p.contains(y) {
                let k = choose|k: int| 0 <= k < p.len() && p[k] == y;
                assert(ids[k] == y);
            }
            if ids.contains(y) {
                let k = choose|k: int| 0 <= k < ids.len() && ids[k] == y;
                if k < ids.len() - 1 {
                    assert(p[k] == y);
                }
            }
        }
    }
}


/// An id is among `with_ids(ids, more)` exactly when it is among `ids` or `more`.
pub proof fn lemma_with_ids_contains(ids: Seq<Seq<char>>, more: Seq<Seq<char>>)
    ensures
        forall|y: Seq<char>| #[trigger] with_ids(ids, more).contains(y) <==> (ids.contains(y) || more.contains(y)),
    decreases more.len(),
{
    if more.len() > 0 {
        let p = more.drop_last();
        lemma_with_ids_contains(ids, p);
        let w = with_ids(ids, p);
        assert forall|y: Seq<char>| #[trigger] with_ids(ids, more).contains(y) <==> (ids.contains(y) || more.contains(y)) by {
            if !w.contains(more.last()) {
                if w.push(more.last()).contains(y) && y != more.last() {
                    let k = choose|k: int| 0 <= k < w.push(more.last()).len() && w.push(more.last())[k] == y;
                    assert(w[k] == y);
                }
                if w.contains(y) {
                    let k = choose|k: int| 0 <= k < w.len() && w[k] == y;
                    assert(w.push(more.last())[k] == y);
                }
                assert(w.push(more.last())[w.len() as int] == more.last());
            }
            if p.contains(y) {
                let k = choose|k: int| 0 <= k < p.len() && p[k] == y;
                assert(more[k] == y);
            }
            if more.contains(y) {
                let k = choose|k: int| 0 <= k < more.len() && more[k] == y;
                if k < more.len() - 1 {
                    assert(p[k] == y);
                }
            }
        }
    }
}

/// Every selected DLC goes on an installation's list, and so does the app;
/// with the store's hierarchy the list is in byte order without repeats.
pub proof fn law_mandatory_ids(appid: Seq<char>, h: Option<GameHierarchy>, selected: Seq<Seq<char>>)
    ensures
        mandatory_ids(appid, h, selected).contains(appid),
        forall|d: Seq<char>| #[trigger] selected.contains(d) ==> mandatory_ids(appid, h, selected).contains(d),
        h is Some ==> byte_sorted(mandatory_ids(appid, h, selected)),
{
    assert(head_ids(appid)[0] == appid);
    match h {
        Some(g) => {
            let listed = head_ids(appid).push(g.root_id@) + kept_depots(g.base_depots@) + selected_dlc_ids(g.dlcs@, selected);
            assert(listed[0] == appid);
            lemma_with_ids_contains(listed, selected);
            law_sorted_distinct(with_ids(listed, selected));
            assert(with_ids(listed, selected).contains(appid));
        },
        None => {
            lemma_with_ids_contains(head_ids(appid), selected);
            assert(head_ids(appid).contains(appid));
        },
    }
}

// ---------------------------------------------------------------------------
// The DLC picker
// ---------------------------------------------------------------------------

/// Whether a character is numeric in Unicode's sense (general categories Nd,
/// Nl and No).
pub uninterp spec fn unicode_numeric(c: char) -> bool;

/// What `char::is_numeric` says: for ASCII, exactly the digits `0` to `9`;
/// otherwise the Unicode numeric categories.
pub open spec fn numeric_char(c: char) -> bool {
    if (c as u32) < 128 { '0' <= c && c <= '9' } else { unicode_numeric(c) }
}

/// `char::is_numeric`: true exactly for the characters of the numeric
/// general categories.
pub assume_specification[ char::is_numeric ](c: char) -> (b: bool)
    ensures
        b == numeric_char(c),
        (c as u32) >= 128 ==> b == unicode_numeric(c),
;

pub struct DlcModel {
    pub app_id: Seq<char>,
    pub name: Seq<char>,
    pub depots_count: usize,
    pub available: bool,
}

impl View for DlcItem {
    type V = DlcModel;

    open spec fn view(&self) -> DlcModel {
        DlcModel { app_id: self.app_id@, name: self.name@, depots_count: self.depots_count, available: self.available }
    }
}

pub open spec fn dlcs_view(ds: Seq<DlcItem>) -> Seq<DlcModel> {
    ds.map_values(|d: DlcItem| d@)
}

/// The position of the item with an id.
pub open spec fn item_index(items: Seq<DlcModel>, id: Seq<char>) -> Option<int>
    decreases items.len(),
{
    if items.len() == 0 {
        None
    } else {
        match item_index(items.drop_last(), id) {
            Some(i) => Some(i),
            None => if items.last().app_id == id { Some(items.len() - 1) } else { None },
        }
    }
}

/// The items with one stored under its id (replacing the one there).
pub open spec fn put_item(items: Seq<DlcModel>, it: DlcModel) -> Seq<DlcModel> {
    match item_index(items, it.app_id) {
        Some(i) => items.update(i, it),
        None => items.push(it),
    }
}

/// The DLCs an install script declares, each available, with no depots known.
pub open spec fn script_items(lua: Seq<(Seq<char>, Seq<char>)>) -> Seq<DlcModel>
    decreases lua.len(),
{
    if lua.len() == 0 {
        Seq::empty()
    } else {
        put_item(script_items(lua.drop_last()), DlcModel {
            app_id: lua.last().0,
            name: lua.last().1,
            depots_count: 0,
            available: true,
        })
    }
}

/// A placeholder name: it mentions `dlc` (any case) and holds a digit.
pub open spec fn generic_name(n: Seq<char>) -> bool {
    crate::text::contains_text(crate::text::lower_text(n), "dlc"@)
        && exists|i: int| 0 <= i < n.len() && #[trigger] numeric_char(n[i])
}

/// Some depot of the DLC has a key available.
pub open spec fn depot_available(ds: Seq<DepotNode>, available: Seq<Seq<char>>) -> bool {
    exists|i: int| 0 <= i < ds.len() && #[trigger] available.contains(ds[i].depot_id@)
}

/// What the store's hierarchy adds about one DLC: a known one gets its depot
/// count, and the official name when its own is a placeholder; an unknown one
/// is added, available when one of its depots has a key.
pub open spec fn api_step(items: Seq<DlcModel>, d: DlcNode, available: Seq<Seq<char>>) -> Seq<DlcModel> {
    match item_index(items, d.app_id@) {
        Some(i) => items.update(i, DlcModel {
            name: if generic_name(items[i].name) && d.name@.len() > 0 { d.name@ } else { items[i].name },
            depots_count: d.depots@.len() as usize,
            ..items[i]
        }),
        None => items.push(DlcModel {
            app_id: d.app_id@,
            name: d.name@,
            depots_count: d.depots@.len() as usize,
            available: depot_available(d.depots@, available),
        }),
    }
}

pub open spec fn api_items(items: Seq<DlcModel>, dlcs: Seq<DlcNode>, available: Seq<Seq<char>>) -> Seq<DlcModel>
    decreases dlcs.len(),
{
    if dlcs.len() == 0 {
        items
    } else {
        api_step(api_items(items, dlcs.drop_last(), available), dlcs.last(), available)
    }
}

/// The sort key of a DLC: its id as a number, 0 when it is none.
pub open spec fn dlc_key(id: Seq<char>) -> u64 {
    match crate::text::parse_u64(id) {
        Some(n) => n,
        None => 0,
    }
}

pub open spec fn dlc_keys(items: Seq<DlcModel>) -> Seq<u64> {
    items.map_values(|d: DlcModel| dlc_key(d.app_id))
}

/// The DLCs offered: those of the install script, completed and extended by
/// the store's hierarchy, sorted by id number (ties in the order found).
pub open spec fn dlc_catalog(lua: Seq<(Seq<char>, Seq<char>)>, h: Option<GameHierarchy>, available: Seq<Seq<char>>) -> Seq<DlcModel> {
    let items = match h {
        Some(h) => api_items(script_items(lua), h.dlcs@, available),
        None => script_items(lua),
    };
    crate::order::stable_order(items.len(), dlc_keys(items)).map_values(|k: usize| items[k as int])
}

proof fn lemma_item_index(items: Seq<DlcModel>, id: Seq<char>, k: int)
    requires
        0 <= k <= items.len(),
        forall|j: int| 0 <= j < k ==> #[trigger] items[j].app_id != id,
        k < items.len() ==> items[k].app_id == id,
    ensures
        item_index(items, id) == if k < items.len() { Some(k) } else { None::<int> },
    decreases items.len(),
{
    if items.len() > 0 {
        let p = items.drop_last();
        if k < items.len() - 1 {
            assert(p[k] == items[k]);
            lemma_item_index(p, id, k);
        } else {
            assert forall|j: int| 0 <= j < p.len() implies #[trigger] p[j].app_id != id by {
                assert(p[j] == items[j]);
            }
            lemma_item_index(p, id, p.len() as int);
        }
    }
}

fn find_item(items: &Vec<DlcItem>, id: &str) -> (r: Option<usize>)
    ensures
        match item_index(dlcs_view(items@), id@) {
            Some(i) => r matches Some(j) && j as int == i && j < items.len(),
            None => r is None,
        },
{
    let ghost iv = dlcs_view(items@);
    let mut i: usize = 0;
    while i < items.len()
        invariant
            i <= items.len(),
            iv == dlcs_view(items@),
            forall|j: int| 0 <= j < i ==> #[trigger] iv[j].app_id != id@,
        decreases items.len() - i,
    {
        assert(iv[i as int] == items@[i as int]@);
        if text_eq(&items[i].app_id, id) {
            proof { lemma_item_index(iv, id@, i as int); }
            return Some(i);
        }
        i = i + 1;
    }
    proof { lemma_item_index(iv, id@, items.len() as int); }
    None
}

fn put_dlc(items: &mut Vec<DlcItem>, it: DlcItem)
    ensures
        dlcs_view(final(items)@) == put_item(dlcs_view(old(items)@), it@),
        final(items).len() <= old(items).len() + 1,
{
    let ghost v = it@;
    match find_item(items, &it.app_id) {
        Some(i) => {
            let ghost before = items@;
            items.set(i, it);
            assert(dlcs_view(items@) =~= dlcs_view(before).update(i as int, v));
        },
        None => {
            let ghost before = items@;
            items.push(it);
            assert(dlcs_view(items@) =~= dlcs_view(before).push(v));
        },
    }
}

fn copy_dlc(d: &DlcItem) -> (r: DlcItem)
    ensures
        r@ == d@,
{
    DlcItem { app_id: d.app_id.clone(), name: d.name.clone(), depots_count: d.depots_count, available: d.available }
}

pub(crate) fn has_numeric_char(n: &str) -> (r: bool)
    ensures
        r == exists|i: int| 0 <= i < n@.len() && #[trigger] numeric_char(n@[i]),
{
    let cs = chars_of(n);
    let mut i: usize = 0;
    while i < cs.len()
        invariant
            i <= cs.len(),
            cs@ == n@,
            forall|j: int| 0 <= j < i ==> !#[trigger] numeric_char(n@[j]),
        decreases cs.len() - i,
    {
        if cs[i].is_numeric() {
            assert(numeric_char(n@[i as int]));
            return true;
        }
        i = i + 1;
    }
    false
}

fn any_available(ds: &Vec<DepotNode>, available: &Vec<String>) -> (r: bool)
    ensures
        r == depot_available(ds@, strings_view(available@)),
{
    let mut i: usize = 0;
    while i < ds.len()
        invariant
            i <= ds.len(),
            forall|j: int| 0 <= j < i ==> !#[trigger] strings_view(available@).contains(ds@[j].depot_id@),
        decreases ds.len() - i,
    {
        if crate::app_list::holds_text(available, &ds[i].depot_id) {
            assert(strings_view(available@).contains(ds@[i as int].depot_id@));
            return true;
        }
        i = i + 1;
    }
    false
}

/// No two items share an id.
pub open spec fn distinct_items(items: Seq<DlcModel>) -> bool {
    forall|a: int, b: int| 0 <= a < b < items.len() ==> #[trigger] items[a].app_id != #[trigger] items[b].app_id
}

/// Some item has the id.
pub open spec fn has_item(items: Seq<DlcModel>, id: Seq<char>) -> bool {
    exists|k: int| 0 <= k < items.len() && #[trigger] items[k].app_id == id
}

proof fn lemma_item_index_found(items: Seq<DlcModel>, id: Seq<char>)
    ensures
        match item_index(items, id) {
            Some(i) => 0 <= i < items.len() && items[i].app_id == id,
            None => !has_item(items, id),
        },
    decreases items.len(),
{
    if items.len() > 0 {
        let p = items.drop_last();
        lemma_item_index_found(p, id);
        if item_index(p, id) is None && has_item(items, id) {
            let k = choose|k: int| 0 <= k < items.len() && #[trigger] items[k].app_id == id;
            if k < p.len() {
                assert(p[k] == items[k]);
            }
        }
        match item_index(p, id) {
            Some(i) => { assert(p[i] == items[i]); },
            None => {},
        }
    }
}

proof fn lemma_put_item(items: Seq<DlcModel>, it: DlcModel)
    requires
        distinct_items(items),
    ensures
        distinct_items(put_item(items, it)),
        put_item(items, it).len() <= items.len() + 1,
        forall|x: Seq<char>| #[trigger] has_item(put_item(items, it), x) <==> (has_item(items, x) || x == it.app_id),
{
    lemma_item_index_found(items, it.app_id);
    let r = put_item(items, it);
    assert forall|x: Seq<char>| #[trigger] has_item(r, x) <==> (has_item(items, x) || x == it.app_id) by {
        if has_item(r, x) {
            let k = choose|k: int| 0 <= k < r.len() && #[trigger] r[k].app_id == x;
            if k < items.len() && r[k].app_id == items[k].app_id {
                assert(has_item(items, x));
            }
        }
        if has_item(items, x) {
            let k = choose|k: int| 0 <= k < items.len() && #[trigger] items[k].app_id == x;
            assert(r[k].app_id == x);
        }
        if x == it.app_id {
            match item_index(items, it.app_id) {
                Some(i) => { assert(r[i].app_id == x); },
                None => { assert(r[items.len() as int].app_id == x); },
            }
        }
    }
}

proof fn lemma_api_step(items: Seq<DlcModel>, d: DlcNode, available: Seq<Seq<char>>)
    requires
        distinct_items(items),
    ensures
        distinct_items(api_step(items, d, available)),
        api_step(items, d, available).len() <= items.len() + 1,
        forall|x: Seq<char>| #[trigger] has_item(api_step(items, d, available), x) <==> (has_item(items, x) || x == d.app_id@),
{
    lemma_item_index_found(items, d.app_id@);
    let r = api_step(items, d, available);
    assert forall|x: Seq<char>| #[trigger] has_item(r, x) <==> (has_item(items, x) || x == d.app_id@) by {
        if has_item(r, x) {
            let k = choose|k: int| 0 <= k < r.len() && #[trigger] r[k].app_id == x;
            if k < items.len() && r[k].app_id == items[k].app_id {
                assert(has_item(items, x));
            }
        }
        if has_item(items, x) {
            let k = choose|k: int| 0 <= k < items.len() && #[trigger] items[k].app_id == x;
            assert(r[k].app_id == x);
        }
        if x == d.app_id@ {
            match item_index(items, d.app_id@) {
                Some(i) => { assert(r[i].app_id == x); },
                None => { assert(r[items.len() as int].app_id == x); },
            }
        }
    }
}

proof fn lemma_script_items(lua: Seq<(Seq<char>, Seq<char>)>)
    ensures
        distinct_items(script_items(lua)),
        script_items(lua).len() <= lua.len(),
        forall|x: Seq<char>| #[trigger] has_item(script_items(lua), x) <==>
            exists|j: int| 0 <= j < lua.len() && #[trigger] lua[j].0 == x,
    decreases lua.len(),
{
    if lua.len() > 0 {
        let p = lua.drop_last();
        lemma_script_items(p);
        let it = DlcModel { app_id: lua.last().0, name: lua.last().1, depots_count: 0, available: true };
        lemma_put_item(script_items(p), it);
        assert forall|x: Seq<char>| #[trigger] has_item(script_items(lua), x) <==>
            exists|j: int| 0 <= j < lua.len() && #[trigger] lua[j].0 == x by {
            if exists|j: int| 0 <= j < lua.len() && #[trigger] lua[j].0 == x {
                let j = choose|j: int| 0 <= j < lua.len() && #[trigger] lua[j].0 == x;
                if j < p.len() {
                    assert(p[j].0 == x);
                }
            }
            if exists|j: int| 0 <= j < p.len() && #[trigger] p[j].0 == x {
                let j = choose|j: int| 0 <= j < p.len() && #[trigger] p[j].0 == x;
                assert(lua[j].0 == x);
            }
        }
    }
}

proof fn lemma_api_items(items: Seq<DlcModel>, dlcs: Seq<DlcNode>, available: Seq<Seq<char>>)
    requires
        distinct_items(items),
    ensures
        distinct_items(api_items(items, dlcs, available)),
        api_items(items, dlcs, available).len() <= items.len() + dlcs.len(),
        forall|x: Seq<char>| #[trigger] has_item(api_items(items, dlcs, available), x) <==>
            (has_item(items, x) || exists|j: int| 0 <= j < dlcs.len() && #[trigger] dlcs[j].app_id@ == x),
    decreases dlcs.len(),
{
    if dlcs.len() > 0 {
        let p = dlcs.drop_last();
        lemma_api_items(items, p, available);
        lemma_api_step(api_items(items, p, available), dlcs.last(), available);
        assert forall|x: Seq<char>| #[trigger] has_item(api_items(items, dlcs, available), x) <==>
            (has_item(items, x) || exists|j: int| 0 <= j < dlcs.len() && #[trigger] dlcs[j].app_id@ == x) by {
            if exists|j: int| 0 <= j < dlcs.len() && #[trigger] dlcs[j].app_id@ == x {
                let j = choose|j: int| 0 <= j < dlcs.len() && #[trigger] dlcs[j].app_id@ == x;
                if j < p.len() {
                    assert(p[j].app_id@ == x);
                }
            }
            if exists|j: int| 0 <= j < p.len() && #[trigger] p[j].app_id@ == x {
                let j = choose|j: int| 0 <= j < p.len() && #[trigger] p[j].app_id@ == x;
                assert(dlcs[j].app_id@ == x);
            }
        }
    }
}

/// The DLC catalog offers each DLC once: exactly those the install script
/// declares and those of the store's hierarchy, in order of their id
/// numbers.
pub proof fn law_dlc_catalog(lua: Seq<(Seq<char>, Seq<char>)>, h: Option<GameHierarchy>, available: Seq<Seq<char>>)
    requires
        lua.len() + match h {
            Some(g) => g.dlcs@.len() as int,
            None => 0int,
        } <= usize::MAX,
    ensures
        distinct_items(dlc_catalog(lua, h, available)),
        forall|a: int, b: int| 0 <= a < b < dlc_catalog(lua, h, available).len() ==>
            dlc_key(#[trigger] dlc_catalog(lua, h, available)[a].app_id) <= dlc_key(#[trigger] dlc_catalog(lua, h, available)[b].app_id),
        forall|x: Seq<char>| #[trigger] has_item(dlc_catalog(lua, h, available), x) <==> (
            (exists|j: int| 0 <= j < lua.len() && #[trigger] lua[j].0 == x)
            || match h {
                Some(g) => exists|j: int| 0 <= j < g.dlcs@.len() && #[trigger] g.dlcs@[j].app_id@ == x,
                None => false,
            }
        ),
{
    lemma_script_items(lua);
    let items = match h {
        Some(g) => api_items(script_items(lua), g.dlcs@, available),
        None => script_items(lua),
    };
    match h {
        Some(g) => { lemma_api_items(script_items(lua), g.dlcs@, available); },
        None => {},
    }
    let keys = dlc_keys(items);
    let order = crate::order::stable_order(items.len(), keys);
    crate::order::law_stable_order(items.len(), keys);
    let r = dlc_catalog(lua, h, available);
    assert(r == order.map_values(|k: usize| items[k as int]));
    assert forall|a: int, b: int| 0 <= a < b < r.len() implies
        dlc_key(#[trigger] r[a].app_id) <= dlc_key(#[trigger] r[b].app_id) && r[a].app_id != r[b].app_id by {
        assert(crate::order::before(order[a], order[b], keys));
        assert(r[a] == items[order[a] as int] && r[b] == items[order[b] as int]);
        assert(keys[order[a] as int] == dlc_key(items[order[a] as int].app_id));
        assert(keys[order[b] as int] == dlc_key(items[order[b] as int].app_id));
        if order[a] < order[b] {
            assert(items[order[a] as int].app_id != items[order[b] as int].app_id);
        } else if order[b] < order[a] {
            assert(items[order[b] as int].app_id != items[order[a] as int].app_id);
        }
    }
    assert forall|x: Seq<char>| #[trigger] has_item(r, x) <==> has_item(items, x) by {
        if has_item(r, x) {
            let k = choose|k: int| 0 <= k < r.len() && #[trigger] r[k].app_id == x;
            assert(items[order[k] as int].app_id == x);
        }
        if has_item(items, x) {
            let i = choose|i: int| 0 <= i < items.len() && #[trigger] items[i].app_id == x;
            assert(order.contains(i as usize));
            let k = choose|k: int| 0 <= k < order.len() && order[k] == i as usize;
            assert(r[k] == items[i]);
        }
    }
}

/// The DLCs offered for an app: `lua_dlcs` are the (id, name) pairs its
/// install script declares, `available_depots` the depots with keys.
pub fn dlc_catalog_for(
    lua_dlcs: &Vec<(String, String)>,
    hierarchy: Option<&GameHierarchy>,
    available_depots: &Vec<String>,
) -> (r: Vec<DlcItem>)
    requires
        lua_dlcs.len() + match hierarchy {
            Some(h) => h.dlcs.len() as int,
            None => 0int,
        } <= usize::MAX,
    ensures
        dlcs_view(r@) == dlc_catalog(pairs_view(lua_dlcs@), match hierarchy {
            Some(h) => Some(*h),
            None => None,
        }, strings_view(available_depots@)),
{
    let ghost lv = pairs_view(lua_dlcs@);
    let mut items: Vec<DlcItem> = Vec::new();
    let mut i: usize = 0;
    while i < lua_dlcs.len()
        invariant
            i <= lua_dlcs.len(),
            lv == pairs_view(lua_dlcs@),
            dlcs_view(items@) == script_items(lv.take(i as int)),
            items.len() <= i,
        decreases lua_dlcs.len() - i,
    {
        proof {
            assert(lv.take(i as int + 1).drop_last() =~= lv.take(i as int));
            assert(lv[i as int] == (lua_dlcs@[i as int].0@, lua_dlcs@[i as int].1@));
        }
        let it = DlcItem { app_id: lua_dlcs[i].0.clone(), name: lua_dlcs[i].1.clone(), depots_count: 0, available: true };
        put_dlc(&mut items, it);
        i = i + 1;
    }
    assert(lv.take(lua_dlcs.len() as int) =~= lv);
    match hierarchy {
        Some(h) => {
            let ghost base = dlcs_view(items@);
            let mut k: usize = 0;
            while k < h.dlcs.len()
                invariant
                    k <= h.dlcs.len(),
                    dlcs_view(items@) == api_items(base, h.dlcs@.take(k as int), strings_view(available_depots@)),
                    items.len() <= lua_dlcs.len() + k,
                    lua_dlcs.len() + h.dlcs.len() <= usize::MAX,
                decreases h.dlcs.len() - k,
            {
                proof {
                    assert(h.dlcs@.take(k as int + 1).drop_last() =~= h.dlcs@.take(k as int));
                    assert(h.dlcs@.take(k as int + 1).last() == h.dlcs@[k as int]);
                }
                let d = &h.dlcs[k];
                let ghost cur = dlcs_view(items@);
                match find_item(&items, &d.app_id) {
                    Some(j) => {
                        let old_it = copy_dlc(&items[j]);
                        let low = crate::text::to_lowercase_text(&old_it.name);
                        let generic = crate::text::contains_str(&low, "dlc") && has_numeric_char(&old_it.name);
                        let name = if generic && chars_of(&d.name).len() > 0 { d.name.clone() } else { old_it.name };
                        let it = DlcItem { app_id: old_it.app_id, name, depots_count: d.depots.len(), available: old_it.available };
                        let ghost before = items@;
                        items.set(j, it);
                        assert(dlcs_view(items@) =~= api_step(cur, *d, strings_view(available_depots@)));
                    },
                    None => {
                        let avail = any_available(&d.depots, available_depots);
                        let it = DlcItem { app_id: d.app_id.clone(), name: d.name.clone(), depots_count: d.depots.len(), available: avail };
                        let ghost before = items@;
                        items.push(it);
                        assert(dlcs_view(items@) =~= api_step(cur, *d, strings_view(available_depots@)));
                    },
                }
                k = k + 1;
            }
            assert(h.dlcs@.take(h.dlcs.len() as int) =~= h.dlcs@);
        },
        None => {},
    }
    let ghost iv = dlcs_view(items@);
    let mut keys: Vec<u64> = Vec::new();
    let mut q: usize = 0;
    while q < items.len()
        invariant
            q <= items.len(),
            iv == dlcs_view(items@),
            keys@ == dlc_keys(iv).take(q as int),
        decreases items.len() - q,
    {
        let key = match crate::text::parse_u64_text(&items[q].app_id) {
            Some(n) => n,
            None => 0,
        };
        assert(iv[q as int] == items@[q as int]@);
        keys.push(key);
        assert(dlc_keys(iv).take(q as int + 1) =~= keys@);
        q = q + 1;
    }
    assert(keys@ =~= dlc_keys(iv));
    let order = crate::order::stable_order_by_key(&keys);
    proof { crate::order::law_stable_order(items.len() as nat, keys@); }
    let mut out: Vec<DlcItem> = Vec::new();
    let mut m: usize = 0;
    while m < order.len()
        invariant
            m <= order.len(),
            order@ == crate::order::stable_order(items.len() as nat, keys@),
            forall|z: int| 0 <= z < order.len() ==> #[trigger] order@[z] < items.len(),
            iv == dlcs_view(items@),
            out.len() == m,
            dlcs_view(out@) == order@.take(m as int).map_values(|k: usize| iv[k as int]),
        decreases order.len() - m,
    {
        let it = copy_dlc(&items[order[m]]);
        let ghost before = out@;
        assert(iv[order@[m as int] as int] == items@[order@[m as int] as int]@);
        out.push(it);
        proof {
            let want = order@.take(m as int + 1).map_values(|k: usize| iv[k as int]);
            assert forall|z: int| 0 <= z < out.len() implies #[trigger] dlcs_view(out@)[z] == want[z] by {
                if z < m {
                    assert(out@[z] == before[z]);
                    assert(dlcs_view(before)[z] == order@.take(m as int).map_values(|k: usize| iv[k as int])[z]);
                }
            }
            assert(dlcs_view(out@) =~= want);
        }
        m = m + 1;
    }
    assert(order@.take(order.len() as int) =~= order@);
    out
}

// ---------------------------------------------------------------------------
// The vault copy of a download
// ---------------------------------------------------------------------------

/// The contents of the first archive file with exactly this name, when it
/// reads.
pub open spec fn data_named(es: Seq<crate::downloader::EntryModel>, name: Seq<char>) -> Option<Seq<u8>>
    decreases es.len(),
{
    if es.len() == 0 {
        None
    } else if es[0] matches Some((Some(n), _, _)) && n == name {
        match es[0] {
            Some((_, _, Some(d))) => Some(d),
            _ => None,
        }
    } else {
        data_named(es.drop_first(), name)
    }
}

/// The manifests a download leaves in the vault: for each manifest id the
/// archive names (`gids`), the file `{depot}_{gid}.manifest` at the archive's
/// top, stored under the ids read as numbers (0 when they are none).
pub open spec fn vault_copies(gids: Seq<(Seq<char>, Seq<char>)>, es: Seq<crate::downloader::EntryModel>) -> Seq<(u32, u64, Seq<u8>)>
    decreases gids.len(),
{
    if gids.len() == 0 {
        Seq::empty()
    } else {
        let rest = vault_copies(gids.drop_last(), es);
        let (d, g) = gids.last();
        match data_named(es, d + "_"@ + g + ".manifest"@) {
            Some(bytes) => rest.push((
                match crate::text::parse_u32(d) { Some(n) => n, None => 0u32 },
                match crate::text::parse_u64(g) { Some(n) => n, None => 0u64 },
                bytes,
            )),
            None => rest,
        }
    }
}

fn entry_data_named(a: &mut zip::ZipArchive<std::io::Cursor<Vec<u8>>>, name: &str) -> (r: Option<Vec<u8>>)
    ensures
        crate::downloader::zip_entries(*final(a)) == crate::downloader::zip_entries(*old(a)),
        match data_named(crate::downloader::zip_entries(*old(a)), name@) {
            Some(d) => r matches Some(v) && v@ == d,
            None => r is None,
        },
{
    let ghost es = crate::downloader::zip_entries(*a);
    let n = crate::downloader::zip_len(a);
    let mut i: usize = 0;
    assert(es.skip(0) =~= es);
    while i < n
        invariant
            i <= n,
            n == es.len(),
            crate::downloader::zip_entries(*a) == es,
            es == crate::downloader::zip_entries(*old(a)),
            data_named(es, name@) == data_named(es.skip(i as int), name@),
        decreases n - i,
    {
        let e = crate::downloader::zip_entry(a, i);
        proof {
            assert(es.skip(i as int)[0] == es[i as int]);
            assert(es.skip(i as int).drop_first() =~= es.skip(i as int + 1));
        }
        match e {
            Some((Some(nm), _, data)) => {
                if text_eq(&nm, name) {
                    return data;
                }
            },
            _ => {},
        }
        i = i + 1;
    }
    None
}

/// The manifests a download leaves in the vault, with their ids; none when
/// the bytes are no archive.
pub fn vault_manifests(zip_bytes: &Vec<u8>) -> (r: Vec<(u32, u64, Vec<u8>)>)
    ensures
        crate::commands::direct_download::found_view(r@) == match crate::downloader::zip_open(zip_bytes@) {
            Some(es) => vault_copies(crate::api::gids_of_entries(es), es),
            None => Seq::empty(),
        },
{
    let mut out: Vec<(u32, u64, Vec<u8>)> = Vec::new();
    assert(crate::commands::direct_download::found_view(out@) =~= Seq::<(u32, u64, Seq<u8>)>::empty());
    let gids = crate::api::extract_gids_from_zip(crate::downloader::copy_slice(zip_bytes.as_slice(), 0));
    proof { assert(zip_bytes@.skip(0) =~= zip_bytes@); }
    let mut a = match crate::downloader::open_zip(crate::downloader::copy_slice(zip_bytes.as_slice(), 0)) {
        Some(a) => a,
        None => return out,
    };
    let ghost es = crate::downloader::zip_entries(a);
    let ghost gv = pairs_view(gids@);
    let mut k: usize = 0;
    while k < gids.len()
        invariant
            k <= gids.len(),
            gv == pairs_view(gids@),
            crate::downloader::zip_entries(a) == es,
            crate::commands::direct_download::found_view(out@) == vault_copies(gv.take(k as int), es),
        decreases gids.len() - k,
    {
        proof {
            assert(gv.take(k as int + 1).drop_last() =~= gv.take(k as int));
            assert(gv.take(k as int + 1).last() == gv[k as int]);
            assert(gv[k as int] == (gids@[k as int].0@, gids@[k as int].1@));
        }
        let a1 = concat3(&gids[k].0, "_", &gids[k].1);
        let target = concat(&a1, ".manifest");
        match entry_data_named(&mut a, &target) {
            Some(bytes) => {
                let d: u32 = match crate::text::parse_u32_text(&gids[k].0) { Some(n) => n, None => 0 };
                let g: u64 = match crate::text::parse_u64_text(&gids[k].1) { Some(n) => n, None => 0 };
                let ghost before = crate::commands::direct_download::found_view(out@);
                let ghost bv = bytes@;
                out.push((d, g, bytes));
                assert(crate::commands::direct_download::found_view(out@) =~= before.push((d, g, bv)));
            },
            None => {},
        }
        k = k + 1;
    }
    assert(gv.take(gids.len() as int) =~= gv);
    out
}


/// The payload length a manifest declares: the little-endian 32-bit number
/// after the magic.
pub open spec fn declared_payload(b: Seq<u8>) -> int {
    b[4] as int + b[5] as int * 256 + b[6] as int * 65536 + b[7] as int * 16777216
}

/// A manifest as the DLC scan stores it: when it starts with the magic and
/// holds at least the payload it declares, cut to the 8-byte header and that
/// payload; else as it is.
pub open spec fn trimmed_payload(b: Seq<u8>) -> Seq<u8> {
    if b.len() >= 8 && crate::downloader::manifest_magic(b) && declared_payload(b) + 8 <= b.len() {
        b.take(declared_payload(b) + 8)
    } else {
        b
    }
}

pub fn trim_manifest_payload(buf: Vec<u8>) -> (r: Vec<u8>)
    ensures
        r@ == trimmed_payload(buf@),
{
    let mut b = buf;
    if b.len() >= 8 && b[0] == 0xD0u8 && b[1] == 0x17u8 && b[2] == 0xF6u8 && b[3] == 0x71u8 {
        let n: u64 = b[4] as u64 + b[5] as u64 * 256 + b[6] as u64 * 65536 + b[7] as u64 * 16777216;
        assert(n == declared_payload(b@));
        if n + 8 <= b.len() as u64 {
            b.truncate((n + 8) as usize);
        }
    }
    b
}

/// The manifests the DLC scan leaves in the vault: those `vault_manifests`
/// finds, each cut to its declared payload.
pub fn dlc_scan_vault_manifests(zip_bytes: &Vec<u8>) -> (r: Vec<(u32, u64, Vec<u8>)>)
    ensures
        crate::commands::direct_download::found_view(r@) == match crate::downloader::zip_open(zip_bytes@) {
            Some(es) => vault_copies(crate::api::gids_of_entries(es), es),
            None => Seq::empty(),
        }.map_values(|c: (u32, u64, Seq<u8>)| (c.0, c.1, trimmed_payload(c.2))),
{
    let raw = vault_manifests(zip_bytes);
    let ghost rv = crate::commands::direct_download::found_view(raw@);
    let mut out: Vec<(u32, u64, Vec<u8>)> = Vec::new();
    let mut i: usize = 0;
    while i < raw.len()
        invariant
            i <= raw.len(),
            rv == crate::commands::direct_download::found_view(raw@),
            crate::commands::direct_download::found_view(out@)
                == rv.take(i as int).map_values(|c: (u32, u64, Seq<u8>)| (c.0, c.1, trimmed_payload(c.2))),
        decreases raw.len() - i,
    {
        let d = raw[i].0;
        let g = raw[i].1;
        let bytes = crate::downloader::copy_slice(raw[i].2.as_slice(), 0);
        assert(raw[i as int].2@.skip(0) =~= raw[i as int].2@);
        let t = trim_manifest_payload(bytes);
        let ghost before = crate::commands::direct_download::found_view(out@);
        let ghost tv = t@;
        out.push((d, g, t));
        assert(crate::commands::direct_download::found_view(out@) =~= before.push((d, g, tv)));
        assert(rv.take(i as int + 1).map_values(|c: (u32, u64, Seq<u8>)| (c.0, c.1, trimmed_payload(c.2)))
            =~= rv.take(i as int).map_values(|c: (u32, u64, Seq<u8>)| (c.0, c.1, trimmed_payload(c.2)))
                .push((d, g, trimmed_payload(rv[i as int].2))));
        i = i + 1;
    }
    assert(rv.take(raw.len() as int) =~= rv);
    out
}

/// What an installation lists, injects and reports.
pub struct InstallOutcome {
    /// The ids put on the injection list.
    pub final_ids: Vec<String>,
    /// The depot keys injected into `config.vdf`.
    pub keys: Vec<(String, String)>,
    pub result: InstallResult,
}

/// The ids an installation lists: with the store's hierarchy,
/// `mandatory_ids`; without, the app, its derived depot, the selected DLCs
/// and the script's shared depots.
pub open spec fn install_list(appid: Seq<char>, h: Option<GameHierarchy>, selected: Seq<Seq<char>>, shared: Seq<u32>) -> Seq<Seq<char>> {
    match h {
        Some(g) => mandatory_ids(appid, Some(g), selected),
        None => fallback_list(appid, selected, shared),
    }
}

/// A Steam-protocol installation, given what it fetched: the script text
/// (from the vault or the download), the store's hierarchy when it came, the
/// selected DLCs and the script's shared depots. It lists the ids, takes
/// every key the script declares for `config.vdf`, records the game as
/// installed through Steam under its folder (`install_dir`, else its name),
/// and reports how many ids and keys it handled.
pub fn steam_protocol_install(
    registry: &mut InstallRegistry,
    appid: &str,
    name: &str,
    install_dir: Option<&str>,
    lua_content: &str,
    hierarchy: Option<&GameHierarchy>,
    selected_dlcs: &Vec<String>,
    shared_depots: &Vec<u32>,
) -> (r: InstallOutcome)
    requires
        old(registry).wf(),
    ensures
        strings_view(r.final_ids@) == install_list(appid@, match hierarchy {
            Some(h) => Some(*h),
            None => None,
        }, strings_view(selected_dlcs@), shared_depots@),
        pairs_view(r.keys@) == crate::vdf_injector::lua_keys(lua_content@).1,
        r.result.success,
        r.result.message@ == name@ + " installed successfully"@,
        r.result.applist_ids_count == r.final_ids.len(),
        r.result.keys_injected == r.keys.len(),
        r.result.keys_injected == crate::vdf_injector::lua_keys(lua_content@).1.len(),
        final(registry).wf(),
        (final(registry).record_of(appid@) matches Some(m) && m.appid == appid@ && m.name == name@
            && m.source == InstallSource::SteamCMD && m.install_dir == match install_dir {
                Some(d) => d@,
                None => name@,
            }),
        forall|a: Seq<char>| a != appid@ ==> #[trigger] final(registry).record_of(a) == old(registry).record_of(a),
{
    let final_ids = match hierarchy {
        Some(h) => mandatory_ids_for(appid, Some(h), selected_dlcs),
        None => fallback_ids(appid, selected_dlcs, shared_depots),
    };
    let (_ids, keys) = crate::vdf_injector::parse_lua_for_keys(lua_content);
    proof { lemma_pairs_view_len(keys@); }
    let dir = match install_dir {
        Some(d) => d.to_string(),
        None => name.to_string(),
    };
    registry.register(appid.to_string(), name.to_string(), InstallSource::SteamCMD, dir);
    let result = InstallResult::installed(name, final_ids.len(), keys.len());
    InstallOutcome { final_ids, keys, result }
}

proof fn lemma_pairs_view_len(v: Seq<(String, String)>)
    ensures
        pairs_view(v).len() == v.len(),
{
}

} // verus!
