//! The decisions of the library commands: which names still need looking up,
//! which entries a game owns, what a repair links, which legacy list files
//! hold ids, and what deleting a game removes and backs up.
use vstd::prelude::*;
use crate::api::GameHierarchy;
use crate::app_list::{GameProfile, ProfileModel, holds_text, pairs_view, profiles_view};
use crate::commands::steam_install::{sort_distinct, sorted_distinct, numeric_char};
use crate::text::{chars_of, concat, concat3, contains_text, decimal, decimal_string, has_prefix, has_suffix, strings_view, text_eq};
use crate::vdf_injector::with_key;

verus! {

/// How many manifests were backed up, which child ids left the list, how many
/// keys left `config.vdf`, and whether the game's files were deleted.
pub struct DeleteResult {
    pub backed_up: usize,
    pub children_removed: Vec<String>,
    pub vdf_keys_removed: usize,
    pub files_deleted: bool,
}

// ---------------------------------------------------------------------------
// Names still unknown
// ---------------------------------------------------------------------------

/// A name that stands in for a missing one.
pub open spec fn placeholder_name(n: Seq<char>) -> bool {
    n == "Unknown"@ || has_prefix(n, "Unknown App"@) || has_suffix(n, "(Content)"@) || has_prefix(n, "AppID "@)
        || has_prefix(n, "Depot ("@)
}

pub open spec fn unknown_ids(ps: Seq<ProfileModel>) -> Seq<Seq<char>>
    decreases ps.len(),
{
    if ps.len() == 0 {
        Seq::empty()
    } else {
        let rest = unknown_ids(ps.drop_last());
        if placeholder_name(ps.last().name) { rest.push(ps.last().app_id) } else { rest }
    }
}

/// The entries whose names should be looked up, in order.
pub fn unknown_names(profiles: &Vec<GameProfile>) -> (r: Vec<String>)
    ensures
        strings_view(r@) == unknown_ids(profiles_view(profiles@)),
{
    let ghost pv = profiles_view(profiles@);
    let mut r: Vec<String> = Vec::new();
    let mut i: usize = 0;
    while i < profiles.len()
        invariant
            i <= profiles.len(),
            pv == profiles_view(profiles@),
            strings_view(r@) == unknown_ids(pv.take(i as int)),
        decreases profiles.len() - i,
    {
        let p = &profiles[i];
        proof {
            assert(pv.take(i as int + 1).drop_last() =~= pv.take(i as int));
            assert(pv.take(i as int + 1).last() == p@);
        }
        let n = &p.name;
        if text_eq(n, "Unknown") || crate::text::starts_with_str(n, "Unknown App") || crate::text::ends_with_str(n, "(Content)")
            || crate::text::starts_with_str(n, "AppID ") || crate::text::starts_with_str(n, "Depot (") {
            let t = p.app_id.clone();
            proof { crate::text::lemma_strings_view_push(r@, t); }
            r.push(t);
        }
        i = i + 1;
    }
    assert(pv.take(profiles.len() as int) =~= pv);
    r
}

// ---------------------------------------------------------------------------
// Children
// ---------------------------------------------------------------------------

pub open spec fn children_in(ps: Seq<ProfileModel>, parent: Seq<char>) -> Seq<(Seq<char>, Seq<char>)>
    decreases ps.len(),
{
    if ps.len() == 0 {
        Seq::empty()
    } else {
        let rest = children_in(ps.drop_last(), parent);
        let p = ps.last();
        if p.parent_id == Some(parent) { rest.push((p.app_id, p.name)) } else { rest }
    }
}

/// The entries under a parent, with their names, in order.
pub fn children_of(profiles: &Vec<GameProfile>, parent_id: &str) -> (r: Vec<(String, String)>)
    ensures
        pairs_view(r@) == children_in(profiles_view(profiles@), parent_id@),
{
    let ghost pv = profiles_view(profiles@);
    let mut r: Vec<(String, String)> = Vec::new();
    let mut i: usize = 0;
    while i < profiles.len()
        invariant
            i <= profiles.len(),
            pv == profiles_view(profiles@),
            pairs_view(r@) == children_in(pv.take(i as int), parent_id@),
        decreases profiles.len() - i,
    {
        let p = &profiles[i];
        proof {
            assert(pv.take(i as int + 1).drop_last() =~= pv.take(i as int));
            assert(pv.take(i as int + 1).last() == p@);
        }
        let under = match &p.parent_id {
            Some(pid) => text_eq(pid, parent_id),
            None => false,
        };
        if under {
            let ghost before = pairs_view(r@);
            r.push((p.app_id.clone(), p.name.clone()));
            assert(pairs_view(r@) =~= before.push((p.app_id@, p.name@)));
        }
        i = i + 1;
    }
    assert(pv.take(profiles.len() as int) =~= pv);
    r
}

// ---------------------------------------------------------------------------
// Repairing the relationships
// ---------------------------------------------------------------------------

pub open spec fn all_numeric(s: Seq<char>) -> bool {
    forall|i: int| 0 <= i < s.len() ==> #[trigger] numeric_char(s[i])
}

pub open spec fn candidate_ids(ps: Seq<ProfileModel>) -> Seq<Seq<char>>
    decreases ps.len(),
{
    if ps.len() == 0 {
        Seq::empty()
    } else {
        let rest = candidate_ids(ps.drop_last());
        let p = ps.last();
        if p.parent_id is None && (p.is_installed || all_numeric(p.app_id)) { rest.push(p.app_id) } else { rest }
    }
}

fn numeric_text(s: &str) -> (r: bool)
    ensures
        r == all_numeric(s@),
{
    let cs = chars_of(s);
    let mut i: usize = 0;
    while i < cs.len()
        invariant
            i <= cs.len(),
            cs@ == s@,
            forall|j: int| 0 <= j < i ==> #[trigger] numeric_char(s@[j]),
        decreases cs.len() - i,
    {
        if !cs[i].is_numeric() {
            return false;
        }
        i = i + 1;
    }
    true
}

/// The games a repair looks up: top-level entries that are installed or have
/// a numeric id, each once, in byte order.
pub fn repair_candidates(profiles: &Vec<GameProfile>) -> (r: Vec<String>)
    ensures
        strings_view(r@) == sorted_distinct(candidate_ids(profiles_view(profiles@))),
{
    let ghost pv = profiles_view(profiles@);
    let mut c: Vec<String> = Vec::new();
    let mut i: usize = 0;
    while i < profiles.len()
        invariant
            i <= profiles.len(),
            pv == profiles_view(profiles@),
            strings_view(c@) == candidate_ids(pv.take(i as int)),
        decreases profiles.len() - i,
    {
        let p = &profiles[i];
        proof {
            assert(pv.take(i as int + 1).drop_last() =~= pv.take(i as int));
            assert(pv.take(i as int + 1).last() == p@);
        }
        if p.parent_id.is_none() && (p.is_installed || numeric_text(&p.app_id)) {
            let t = p.app_id.clone();
            proof { crate::text::lemma_strings_view_push(c@, t); }
            c.push(t);
        }
        i = i + 1;
    }
    assert(pv.take(profiles.len() as int) =~= pv);
    sort_distinct(&c)
}

/// The links a repair records for one game's hierarchy: its base depots
/// (other than the game itself), its DLCs and their depots, all under the
/// game.
pub open spec fn repair_links(t: Seq<(Seq<char>, Seq<char>)>, h: GameHierarchy) -> Seq<(Seq<char>, Seq<char>)> {
    let parent = h.root_id@;
    dlc_links(base_links(t, h.base_depots@, parent), h.dlcs@, parent)
}

pub open spec fn base_links(t: Seq<(Seq<char>, Seq<char>)>, ds: Seq<crate::api::DepotNode>, parent: Seq<char>) -> Seq<(Seq<char>, Seq<char>)>
    decreases ds.len(),
{
    if ds.len() == 0 {
        t
    } else {
        let r = base_links(t, ds.drop_last(), parent);
        if ds.last().depot_id@ != parent { with_key(r, ds.last().depot_id@, parent) } else { r }
    }
}

pub open spec fn dlc_links(t: Seq<(Seq<char>, Seq<char>)>, dlcs: Seq<crate::api::DlcNode>, parent: Seq<char>) -> Seq<(Seq<char>, Seq<char>)>
    decreases dlcs.len(),
{
    if dlcs.len() == 0 {
        t
    } else {
        let r = dlc_links(t, dlcs.drop_last(), parent);
        crate::commands::steam_install::with_all(with_key(r, dlcs.last().app_id@, parent),
            crate::commands::steam_install::depot_ids(dlcs.last().depots@), parent)
    }
}

/// Records the links of one game's hierarchy.
pub fn record_repair_links(rels: &mut Vec<(String, String)>, h: &GameHierarchy)
    ensures
        pairs_view(final(rels)@) == repair_links(pairs_view(old(rels)@), *h),
{
    let parent: &str = h.root_id.as_str();
    let ghost start = pairs_view(rels@);
    let mut i: usize = 0;
    while i < h.base_depots.len()
        invariant
            i <= h.base_depots.len(),
            parent@ == h.root_id@,
            pairs_view(rels@) == base_links(start, h.base_depots@.take(i as int), h.root_id@),
        decreases h.base_depots.len() - i,
    {
        proof {
            assert(h.base_depots@.take(i as int + 1).drop_last() =~= h.base_depots@.take(i as int));
            assert(h.base_depots@.take(i as int + 1).last() == h.base_depots@[i as int]);
        }
        let d = &h.base_depots[i].depot_id;
        let ghost before = pairs_view(rels@);
        assert(before == base_links(start, h.base_depots@.take(i as int + 1).drop_last(), h.root_id@));
        if !text_eq(d, parent) {
            crate::vdf_injector::store_key(rels, d.clone(), parent.to_string());
            assert(pairs_view(rels@) == with_key(before, d@, h.root_id@));
        }
        i = i + 1;
    }
    assert(h.base_depots@.take(h.base_depots.len() as int) =~= h.base_depots@);
    let ghost mid = pairs_view(rels@);
    let mut k: usize = 0;
    while k < h.dlcs.len()
        invariant
            k <= h.dlcs.len(),
            parent@ == h.root_id@,
            pairs_view(rels@) == dlc_links(mid, h.dlcs@.take(k as int), h.root_id@),
        decreases h.dlcs.len() - k,
    {
        proof {
            assert(h.dlcs@.take(k as int + 1).drop_last() =~= h.dlcs@.take(k as int));
            assert(h.dlcs@.take(k as int + 1).last() == h.dlcs@[k as int]);
        }
        let d = &h.dlcs[k];
        let ghost before = pairs_view(rels@);
        crate::vdf_injector::store_key(rels, d.app_id.clone(), parent.to_string());
        let ghost mid2 = pairs_view(rels@);
        assert(mid2 == with_key(before, d.app_id@, h.root_id@));
        let ds = crate::commands::steam_install::ids_of_depots(&d.depots);
        crate::commands::steam_install::put_all(rels, &ds, parent);
        assert(pairs_view(rels@) == crate::commands::steam_install::with_all(mid2, crate::commands::steam_install::depot_ids(d.depots@), h.root_id@));
        k = k + 1;
    }
    assert(h.dlcs@.take(h.dlcs.len() as int) =~= h.dlcs@);
}

/// The report of a repair: with new links, how many games and links; else
/// how many games were scanned.
pub fn repair_message(processed: usize, added: usize, any_updates: bool) -> (r: String)
    ensures
        r@ == if any_updates {
            "Repaired relationships for "@ + decimal(processed as nat) + " games. Added "@ + decimal(added as nat) + " links."@
        } else {
            "Scanned "@ + decimal(processed as nat) + " games, no new relationships found."@
        },
{
    if any_updates {
        let a = concat3("Repaired relationships for ", &decimal_string(processed as u64), " games. Added ");
        concat3(&a, &decimal_string(added as u64), " links.")
    } else {
        concat3("Scanned ", &decimal_string(processed as u64), " games, no new relationships found.")
    }
}

// ---------------------------------------------------------------------------
// The legacy list
// ---------------------------------------------------------------------------

/// A name with every trailing `.txt` removed.
pub open spec fn strip_txt(s: Seq<char>) -> Seq<char>
    decreases s.len(),
{
    if s.len() >= 4 && has_suffix(s, ".txt"@) { strip_txt(s.take(s.len() - 4)) } else { s }
}

pub open spec fn any_numeric(s: Seq<char>) -> bool {
    exists|i: int| 0 <= i < s.len() && #[trigger] numeric_char(s[i])
}

pub open spec fn legacy_ids_of(names: Seq<Seq<char>>) -> Seq<Seq<char>>
    decreases names.len(),
{
    if names.len() == 0 {
        Seq::empty()
    } else {
        let rest = legacy_ids_of(names.drop_last());
        let n = names.last();
        if has_suffix(n, ".txt"@) && any_numeric(n) { rest.push(strip_txt(n)) } else { rest }
    }
}

fn strip_txt_text(s: &str) -> (r: String)
    ensures
        r@ == strip_txt(s@),
{
    let mut cs = chars_of(s);
    proof { reveal_strlit(".txt"); }
    while cs.len() >= 4 && cs[cs.len() - 4] == '.' && cs[cs.len() - 3] == 't' && cs[cs.len() - 2] == 'x' && cs[cs.len() - 1] == 't'
        invariant
            strip_txt(cs@) == strip_txt(s@),
        decreases cs.len(),
    {
        let ghost before = cs@;
        proof {
            reveal_strlit(".txt");
            assert(has_suffix(before, ".txt"@)) by {
                assert(before.skip(before.len() - 4) =~= ".txt"@);
            }
        }
        cs.pop();
        cs.pop();
        cs.pop();
        cs.pop();
        assert(cs@ =~= before.take(before.len() - 4));
    }
    proof {
        reveal_strlit(".txt");
        if cs@.len() >= 4 && has_suffix(cs@, ".txt"@) {
            let n = cs@.len();
            assert(cs@.skip(n - 4) == ".txt"@);
            assert(cs@.skip(n - 4)[0] == cs@[n - 4]);
            assert(cs@.skip(n - 4)[1] == cs@[n - 3]);
            assert(cs@.skip(n - 4)[2] == cs@[n - 2]);
            assert(cs@.skip(n - 4)[3] == cs@[n - 1]);
        }
    }
    crate::text::string_of(&cs)
}

/// The ids the legacy list's file names give: `.txt` names holding a digit,
/// without their `.txt` endings, in order.
pub fn legacy_ids(names: &Vec<String>) -> (r: Vec<String>)
    ensures
        strings_view(r@) == legacy_ids_of(strings_view(names@)),
{
    let ghost nv = strings_view(names@);
    let mut r: Vec<String> = Vec::new();
    let mut i: usize = 0;
    while i < names.len()
        invariant
            i <= names.len(),
            nv == strings_view(names@),
            strings_view(r@) == legacy_ids_of(nv.take(i as int)),
        decreases names.len() - i,
    {
        proof {
            assert(nv.take(i as int + 1).drop_last() =~= nv.take(i as int));
            assert(nv[i as int] == names@[i as int]@);
        }
        let n = &names[i];
        if crate::text::ends_with_str(n, ".txt") && crate::commands::steam_install::has_numeric_char(n) {
            let t = strip_txt_text(n);
            proof { crate::text::lemma_strings_view_push(r@, t); }
            r.push(t);
        }
        i = i + 1;
    }
    assert(nv.take(names.len() as int) =~= nv);
    r
}

// ---------------------------------------------------------------------------
// Deleting a game
// ---------------------------------------------------------------------------

pub open spec fn children_ids(rels: Seq<(Seq<char>, Seq<char>)>, parent: Seq<char>) -> Seq<Seq<char>>
    decreases rels.len(),
{
    if rels.len() == 0 {
        Seq::empty()
    } else {
        let rest = children_ids(rels.drop_last(), parent);
        if rels.last().1 == parent { rest.push(rels.last().0) } else { rest }
    }
}

/// What deleting a game removes: the game and every entry recorded under it,
/// each once, in byte order.
pub open spec fn delete_targets_of(rels: Seq<(Seq<char>, Seq<char>)>, app_id: Seq<char>) -> Seq<Seq<char>> {
    sorted_distinct(seq![app_id] + children_ids(rels, app_id))
}

pub fn delete_targets(rels: &Vec<(String, String)>, app_id: &str) -> (r: Vec<String>)
    ensures
        strings_view(r@) == delete_targets_of(pairs_view(rels@), app_id@),
{
    let ghost rv = pairs_view(rels@);
    let mut t: Vec<String> = Vec::new();
    t.push(app_id.to_string());
    let mut i: usize = 0;
    while i < rels.len()
        invariant
            i <= rels.len(),
            rv == pairs_view(rels@),
            strings_view(t@) == seq![app_id@] + children_ids(rv.take(i as int), app_id@),
        decreases rels.len() - i,
    {
        proof {
            assert(rv.take(i as int + 1).drop_last() =~= rv.take(i as int));
            assert(rv.take(i as int + 1).last() == (rels@[i as int].0@, rels@[i as int].1@));
        }
        if text_eq(&rels[i].1, app_id) {
            let c = rels[i].0.clone();
            proof { crate::text::lemma_strings_view_push(t@, c); }
            t.push(c);
            assert(strings_view(t@) =~= seq![app_id@] + children_ids(rv.take(i as int + 1), app_id@));
        }
        i = i + 1;
    }
    assert(rv.take(rels.len() as int) =~= rv);
    sort_distinct(&t)
}

/// The depot-cache files backed up for each target, target after target.
pub open spec fn backup_names_of(cache: Seq<Seq<char>>, targets: Seq<Seq<char>>) -> Seq<Seq<char>>
    decreases targets.len(),
{
    if targets.len() == 0 {
        Seq::empty()
    } else {
        backup_names_of(cache, targets.drop_last()) + files_of(cache, targets.last())
    }
}

/// The depot-cache files of one target, in listing order.
pub open spec fn files_of(cache: Seq<Seq<char>>, target: Seq<char>) -> Seq<Seq<char>>
    decreases cache.len(),
{
    if cache.len() == 0 {
        Seq::empty()
    } else {
        let rest = files_of(cache.drop_last(), target);
        let n = cache.last();
        if has_prefix(n, target + "_"@) && has_suffix(n, ".manifest"@) { rest.push(n) } else { rest }
    }
}

fn target_files(cache: &Vec<String>, target: &str) -> (r: Vec<String>)
    ensures
        strings_view(r@) == files_of(strings_view(cache@), target@),
{
    let prefix = concat(target, "_");
    let ghost cv = strings_view(cache@);
    let mut r: Vec<String> = Vec::new();
    let mut i: usize = 0;
    while i < cache.len()
        invariant
            i <= cache.len(),
            cv == strings_view(cache@),
            prefix@ == target@ + "_"@,
            strings_view(r@) == files_of(cv.take(i as int), target@),
        decreases cache.len() - i,
    {
        proof {
            assert(cv.take(i as int + 1).drop_last() =~= cv.take(i as int));
            assert(cv[i as int] == cache@[i as int]@);
        }
        let n = &cache[i];
        if crate::text::starts_with_str(n, &prefix) && crate::text::ends_with_str(n, ".manifest") {
            let t = n.clone();
            proof { crate::text::lemma_strings_view_push(r@, t); }
            r.push(t);
        }
        i = i + 1;
    }
    assert(cv.take(cache.len() as int) =~= cv);
    r
}

/// The depot-cache files a deletion backs up (`cache` lists the folder).
pub fn backup_names(cache: &Vec<String>, targets: &Vec<String>) -> (r: Vec<String>)
    ensures
        strings_view(r@) == backup_names_of(strings_view(cache@), strings_view(targets@)),
{
    let ghost tv = strings_view(targets@);
    let mut r: Vec<String> = Vec::new();
    let mut k: usize = 0;
    while k < targets.len()
        invariant
            k <= targets.len(),
            tv == strings_view(targets@),
            strings_view(r@) == backup_names_of(strings_view(cache@), tv.take(k as int)),
        decreases targets.len() - k,
    {
        proof {
            assert(tv.take(k as int + 1).drop_last() =~= tv.take(k as int));
            assert(tv[k as int] == targets@[k as int]@);
        }
        let more = target_files(cache, &targets[k]);
        let ghost before = strings_view(r@);
        let mut j: usize = 0;
        while j < more.len()
            invariant
                j <= more.len(),
                strings_view(r@) == before + strings_view(more@).take(j as int),
            decreases more.len() - j,
        {
            let t = more[j].clone();
            proof { crate::text::lemma_strings_view_push(r@, t); }
            r.push(t);
            assert(before + strings_view(more@).take(j as int + 1) =~= (before + strings_view(more@).take(j as int)).push(more@[j as int]@));
            j = j + 1;
        }
        assert(strings_view(more@).take(more.len() as int) =~= strings_view(more@));
        k = k + 1;
    }
    assert(tv.take(targets.len() as int) =~= tv);
    r
}

/// A table without the entries of some keys.
pub open spec fn drop_keys(t: Seq<(Seq<char>, Seq<char>)>, ids: Seq<Seq<char>>) -> Seq<(Seq<char>, Seq<char>)>
    decreases t.len(),
{
    if t.len() == 0 {
        Seq::empty()
    } else {
        let rest = drop_keys(t.drop_last(), ids);
        if ids.contains(t.last().0) { rest } else { rest.push(t.last()) }
    }
}

/// Removes the entries of the given keys; says whether any was there.
pub fn remove_keys(t: &mut Vec<(String, String)>, ids: &Vec<String>) -> (changed: bool)
    ensures
        pairs_view(final(t)@) == drop_keys(pairs_view(old(t)@), strings_view(ids@)),
        changed == exists|i: int| 0 <= i < old(t)@.len() && #[trigger] strings_view(ids@).contains(old(t)@[i].0@),
{
    let ghost tv = pairs_view(t@);
    let ghost iv = strings_view(ids@);
    let mut kept: Vec<(String, String)> = Vec::new();
    let mut changed = false;
    let mut i: usize = 0;
    while i < t.len()
        invariant
            i <= t.len(),
            tv == pairs_view(t@),
            t@ == old(t)@,
            iv == strings_view(ids@),
            pairs_view(kept@) == drop_keys(tv.take(i as int), iv),
            changed == exists|j: int| 0 <= j < i && #[trigger] iv.contains(old(t)@[j].0@),
        decreases t.len() - i,
    {
        proof {
            assert(tv.take(i as int + 1).drop_last() =~= tv.take(i as int));
            assert(tv.take(i as int + 1).last() == (t@[i as int].0@, t@[i as int].1@));
        }
        let ghost c0 = changed;
        if holds_text(ids, &t[i].0) {
            changed = true;
        } else {
            let ghost before = pairs_view(kept@);
            kept.push((t[i].0.clone(), t[i].1.clone()));
            assert(pairs_view(kept@) =~= before.push((t@[i as int].0@, t@[i as int].1@)));
        }
        proof {
            if c0 {
                let j = choose|j: int| 0 <= j < i && #[trigger] iv.contains(old(t)@[j].0@);
                assert(0 <= j < i + 1 && iv.contains(old(t)@[j].0@));
            }
            if exists|j: int| 0 <= j < i + 1 && #[trigger] iv.contains(old(t)@[j].0@) {
                let j = choose|j: int| 0 <= j < i + 1 && #[trigger] iv.contains(old(t)@[j].0@);
                if j < i {
                    assert(c0);
                }
            }
            if iv.contains(old(t)@[i as int].0@) {
                assert(0 <= i < i + 1 && iv.contains(old(t)@[i as int].0@));
            }
        }
        i = i + 1;
    }
    assert(tv.take(t.len() as int) =~= tv);
    *t = kept;
    changed
}

proof fn lemma_drop_keys(t: Seq<(Seq<char>, Seq<char>)>, ids: Seq<Seq<char>>)
    ensures
        forall|e: (Seq<char>, Seq<char>)| #[trigger] drop_keys(t, ids).contains(e) <==> (t.contains(e) && !ids.contains(e.0)),
    decreases t.len(),
{
    if t.len() > 0 {
        let p = t.drop_last();
        lemma_drop_keys(p, ids);
        let r = drop_keys(p, ids);
        assert forall|e: (Seq<char>, Seq<char>)| #[trigger] drop_keys(t, ids).contains(e) <==> (t.contains(e) && !ids.contains(e.0)) by {
            if p.contains(e) {
                let k = choose|k: int| 0 <= k < p.len() && p[k] == e;
                assert(t[k] == e);
            }
            if t.contains(e) {
                let k = choose|k: int| 0 <= k < t.len() && t[k] == e;
                if k < t.len() - 1 {
                    assert(p[k] == e);
                }
            }
            if !ids.contains(t.last().0) {
                let r2 = r.push(t.last());
                if r2.contains(e) {
                    let k = choose|k: int| 0 <= k < r2.len() && r2[k] == e;
                    if k < r.len() {
                        assert(r[k] == e);
                    }
                }
                if r.contains(e) {
                    let k = choose|k: int| 0 <= k < r.len() && r[k] == e;
                    assert(r2[k] == e);
                }
                assert(r2[r.len() as int] == t.last());
            }
        }
    }
}

proof fn lemma_children_ids(rels: Seq<(Seq<char>, Seq<char>)>, parent: Seq<char>)
    ensures
        forall|i: int| 0 <= i < rels.len() && rels[i].1 == parent ==> children_ids(rels, parent).contains(#[trigger] rels[i].0),
    decreases rels.len(),
{
    if rels.len() > 0 {
        let p = rels.drop_last();
        lemma_children_ids(p, parent);
        assert forall|i: int| 0 <= i < rels.len() && rels[i].1 == parent implies children_ids(rels, parent).contains(#[trigger] rels[i].0) by {
            let c = children_ids(p, parent);
            if i < rels.len() - 1 {
                assert(p[i] == rels[i]);
                let k = choose|k: int| 0 <= k < c.len() && c[k] == rels[i].0;
                if rels.last().1 == parent {
                    assert(c.push(rels.last().0)[k] == rels[i].0);
                }
            } else {
                assert(c.push(rels.last().0)[c.len() as int] == rels[i].0);
            }
        }
    }
}

/// Deleting a game takes the game and every entry recorded under it off the
/// relationship and type tables, and keeps every other entry.
pub proof fn law_delete(rels: Seq<(Seq<char>, Seq<char>)>, table: Seq<(Seq<char>, Seq<char>)>, app_id: Seq<char>)
    ensures
        delete_targets_of(rels, app_id).contains(app_id),
        forall|i: int| 0 <= i < rels.len() && rels[i].1 == app_id ==> delete_targets_of(rels, app_id).contains(#[trigger] rels[i].0),
        forall|e: (Seq<char>, Seq<char>)| #[trigger] drop_keys(table, delete_targets_of(rels, app_id)).contains(e)
            <==> (table.contains(e) && !delete_targets_of(rels, app_id).contains(e.0)),
{
    let listed = seq![app_id] + children_ids(rels, app_id);
    crate::commands::steam_install::law_sorted_distinct(listed);
    assert(listed[0] == app_id);
    lemma_children_ids(rels, app_id);
    assert forall|i: int| 0 <= i < rels.len() && rels[i].1 == app_id implies delete_targets_of(rels, app_id).contains(#[trigger] rels[i].0) by {
        let c = children_ids(rels, app_id);
        let k = choose|k: int| 0 <= k < c.len() && c[k] == rels[i].0;
        assert(listed[k + 1] == rels[i].0);
    }
    lemma_drop_keys(table, delete_targets_of(rels, app_id));
}

// ---------------------------------------------------------------------------
// Injecting the keys of all scripts
// ---------------------------------------------------------------------------

/// The keys of several scripts together, a later script's key winning.
pub open spec fn merged_keys_of(per_script: Seq<Seq<(Seq<char>, Seq<char>)>>) -> Seq<(Seq<char>, Seq<char>)>
    decreases per_script.len(),
{
    if per_script.len() == 0 {
        Seq::empty()
    } else {
        crate::commands::steam_install::with_pairs(merged_keys_of(per_script.drop_last()), per_script.last())
    }
}

pub open spec fn scripts_view(ss: Seq<Vec<(String, String)>>) -> Seq<Seq<(Seq<char>, Seq<char>)>> {
    ss.map_values(|k: Vec<(String, String)>| pairs_view(k@))
}

pub fn merge_keys(per_script: &Vec<Vec<(String, String)>>) -> (r: Vec<(String, String)>)
    ensures
        pairs_view(r@) == merged_keys_of(scripts_view(per_script@)),
{
    let ghost sv = scripts_view(per_script@);
    let mut r: Vec<(String, String)> = Vec::new();
    assert(pairs_view(r@) =~= Seq::<(Seq<char>, Seq<char>)>::empty());
    let mut i: usize = 0;
    while i < per_script.len()
        invariant
            i <= per_script.len(),
            sv == scripts_view(per_script@),
            pairs_view(r@) == merged_keys_of(sv.take(i as int)),
        decreases per_script.len() - i,
    {
        proof {
            assert(sv.take(i as int + 1).drop_last() =~= sv.take(i as int));
            assert(sv.take(i as int + 1).last() == pairs_view(per_script@[i as int]@));
        }
        crate::commands::steam_install::put_pairs(&mut r, &per_script[i]);
        i = i + 1;
    }
    assert(sv.take(per_script.len() as int) =~= sv);
    r
}

/// The report of a key injection over the scripts.
pub fn injection_message(scanned: usize, keys_found: bool, injected: usize) -> (r: String)
    ensures
        r@ == if keys_found {
            "Injected "@ + decimal(injected as nat) + " keys from "@ + decimal(scanned as nat) + " scripts."@
        } else {
            "Scanned "@ + decimal(scanned as nat) + " scripts, no keys found."@
        },
{
    if keys_found {
        let a = concat3("Injected ", &decimal_string(injected as u64), " keys from ");
        concat3(&a, &decimal_string(scanned as u64), " scripts.")
    } else {
        concat3("Scanned ", &decimal_string(scanned as u64), " scripts, no keys found.")
    }
}

} // verus!
