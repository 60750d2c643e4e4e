//! The decisions of the install commands: which ids an installation needs,
//! what the family mode lists, and where things go.
use vstd::prelude::*;
use crate::api::GameHierarchy;
use crate::commands::steam_install::{kept_depots, push_kept_depots, selected_dlc_ids, sort_distinct, sorted_distinct};
use crate::paths::PathText;
use crate::text::{concat, strings_view};

verus! {

/// The ids an installation needs: the hierarchy's root and base depots, and
/// the selected DLCs with their depots (redistributables left out); each
/// once, in byte order.
pub open spec fn install_ids(h: GameHierarchy, selected: Seq<Seq<char>>) -> Seq<Seq<char>> {
    sorted_distinct(seq![h.root_id@] + kept_depots(h.base_depots@) + selected_dlc_ids(h.dlcs@, selected))
}

pub fn resolve_install_ids(h: &GameHierarchy, selected_dlcs: &Vec<String>) -> (r: Vec<String>)
    ensures
        strings_view(r@) == install_ids(*h, strings_view(selected_dlcs@)),
{
    let mut ids: Vec<String> = Vec::new();
    let root = h.root_id.clone();
    proof { crate::text::lemma_strings_view_push(ids@, root); }
    ids.push(root);
    assert(strings_view(ids@) =~= seq![h.root_id@]);
    push_kept_depots(&mut ids, &h.base_depots);
    let ghost base = strings_view(ids@);
    let mut k: usize = 0;
    while k < h.dlcs.len()
        invariant
            k <= h.dlcs.len(),
            strings_view(ids@) == base + selected_dlc_ids(h.dlcs@.take(k as int), strings_view(selected_dlcs@)),
        decreases h.dlcs.len() - k,
    {
        proof {
            assert(h.dlcs@.take(k as int + 1).drop_last() =~= h.dlcs@.take(k as int));
            assert(h.dlcs@.take(k as int + 1).last() == h.dlcs@[k as int]);
        }
        let d = &h.dlcs[k];
        if crate::app_list::holds_text(selected_dlcs, &d.app_id) {
            let t = d.app_id.clone();
            proof { crate::text::lemma_strings_view_push(ids@, t); }
            ids.push(t);
            push_kept_depots(&mut ids, &d.depots);
            assert(strings_view(ids@) =~= base + selected_dlc_ids(h.dlcs@.take(k as int + 1), strings_view(selected_dlcs@)));
        }
        k = k + 1;
    }
    assert(h.dlcs@.take(h.dlcs.len() as int) =~= h.dlcs@);
    sort_distinct(&ids)
}

/// The ids the family mode lists for a game: the game, then its DLCs when
/// they were fetched.
pub fn godmode_ids(appid: &str, dlcs: Option<&Vec<String>>) -> (r: Vec<String>)
    ensures
        strings_view(r@) == seq![appid@] + match dlcs {
            Some(d) => strings_view(d@),
            None => Seq::<Seq<char>>::empty(),
        },
{
    let mut ids: Vec<String> = Vec::new();
    let t = appid.to_string();
    proof { crate::text::lemma_strings_view_push(ids@, t); }
    ids.push(t);
    match dlcs {
        Some(d) => {
            let mut i: usize = 0;
            while i < d.len()
                invariant
                    i <= d.len(),
                    strings_view(ids@) == seq![appid@] + strings_view(d@).take(i as int),
                decreases d.len() - i,
            {
                let t = d[i].clone();
                proof { crate::text::lemma_strings_view_push(ids@, t); }
                ids.push(t);
                assert(seq![appid@] + strings_view(d@).take(i as int + 1) =~= (seq![appid@] + strings_view(d@).take(i as int)).push(d@[i as int]@));
                i = i + 1;
            }
            assert(strings_view(d@).take(d.len() as int) =~= strings_view(d@));
        },
        None => {
            assert(strings_view(ids@) =~= seq![appid@] + Seq::<Seq<char>>::empty());
        },
    }
    ids
}

/// Where a game is installed in a library: `steamapps/common/{name}`.
pub fn install_path(library: &str, name: &str) -> (r: PathText)
    ensures
        r@ == seq![library@, "steamapps"@, "common"@, name@],
{
    PathText::new(library).join("steamapps").join("common").join(name)
}

/// Where a downloaded manifest goes: the depot cache when no folder (or `.`)
/// is given, else that folder.
pub fn manifest_target(steam_path: &str, output_path: &str) -> (r: PathText)
    ensures
        r@ == if output_path@ == "."@ || output_path@.len() == 0 {
            seq![steam_path@, "depotcache"@]
        } else {
            seq![output_path@]
        },
{
    if crate::text::text_eq(output_path, ".") || crate::text::chars_of(output_path).len() == 0 {
        PathText::new(steam_path).join("depotcache")
    } else {
        PathText::new(output_path)
    }
}

/// The link that asks Steam to install an app.
pub fn install_url(appid: &str) -> (r: String)
    ensures
        r@ == "steam://install/"@ + appid@,
{
    concat("steam://install/", appid)
}

} // verus!
