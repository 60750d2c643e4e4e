pub mod vdf;
pub mod crypto;

use vstd::prelude::*;
use crate::text::{decimal, decimal_string};

verus! {

/// A depot as an app manifest lists it.
pub struct AcfDepotInfo {
    pub gid: u64,
    pub size: u64,
}

/// The `InstalledDepots` block of one depot.
pub open spec fn installed_block(depot: u32, info: AcfDepotInfo) -> Seq<char> {
    "\t\t\""@ + decimal(depot as nat) + "\"\n\t\t{\n\t\t\t\"manifest\"\t\t\""@ + decimal(info.gid as nat)
        + "\"\n\t\t\t\"size\"\t\t\""@ + decimal(info.size as nat) + "\"\n\t\t}\n"@
}

/// The `MountedDepots` line of one depot.
pub open spec fn mounted_line(depot: u32, info: AcfDepotInfo) -> Seq<char> {
    "\t\t\""@ + decimal(depot as nat) + "\"\t\t\""@ + decimal(info.gid as nat) + "\"\n"@
}

pub open spec fn installed_blocks(ds: Seq<(u32, AcfDepotInfo)>) -> Seq<char>
    decreases ds.len(),
{
    if ds.len() == 0 {
        Seq::empty()
    } else {
        installed_blocks(ds.drop_last()) + installed_block(ds.last().0, ds.last().1)
    }
}

pub open spec fn mounted_lines(ds: Seq<(u32, AcfDepotInfo)>) -> Seq<char>
    decreases ds.len(),
{
    if ds.len() == 0 {
        Seq::empty()
    } else {
        mounted_lines(ds.drop_last()) + mounted_line(ds.last().0, ds.last().1)
    }
}

/// Both depot sections, or nothing for no depots.
pub open spec fn depots_section(ds: Seq<(u32, AcfDepotInfo)>) -> Seq<char> {
    if ds.len() == 0 {
        Seq::empty()
    } else {
        "\t\"InstalledDepots\"\n\t{\n"@ + installed_blocks(ds) + "\t}\n\t\"MountedDepots\"\n\t{\n"@ + mounted_lines(ds)
            + "\t}\n"@
    }
}

/// An app manifest that makes Steam see the app as fully installed.
pub open spec fn ghost_acf(
    appid: Seq<char>,
    name: Seq<char>,
    install_dir: Seq<char>,
    timestamp: u64,
    total_size: u64,
    build_id: u64,
    ds: Seq<(u32, AcfDepotInfo)>,
) -> Seq<char> {
    "\"AppState\"\n{\n\t\"appid\"\t\t\""@ + appid
        + "\"\n\t\"Universe\"\t\t\"1\"\n\t\"name\"\t\t\""@ + name
        + "\"\n\t\"StateFlags\"\t\t\"4\"\n\t\"installdir\"\t\t\""@ + install_dir
        + "\"\n\t\"LastUpdated\"\t\t\""@ + decimal(timestamp as nat)
        + "\"\n\t\"UpdateResult\"\t\t\"0\"\n\t\"SizeOnDisk\"\t\t\""@ + decimal(total_size as nat)
        + "\"\n\t\"buildid\"\t\t\""@ + decimal(build_id as nat)
        + "\"\n\t\"LastOwner\"\t\t\"76561198000000000\"\n\t\"BytesToDownload\"\t\t\"0\"\n\t\"BytesDownloaded\"\t\t\"0\"\n\t\"BytesToStage\"\t\t\"0\"\n\t\"BytesStaged\"\t\t\"0\"\n\t\"AutoUpdateBehavior\"\t\t\"0\"\n"@
        + depots_section(ds) + "\n}"@
}

/// The app manifest text for a given last-update time.
pub fn ghost_acf_text(
    appid: &str,
    name: &str,
    install_dir: &str,
    timestamp: u64,
    total_size: u64,
    build_id: u64,
    depots: &Vec<(u32, AcfDepotInfo)>,
) -> (r: String)
    ensures
        r@ == ghost_acf(appid@, name@, install_dir@, timestamp, total_size, build_id, depots@),
{
    let mut installed = String::new();
    let mut mounted = String::new();
    let mut i: usize = 0;
    while i < depots.len()
        invariant
            i <= depots.len(),
            installed@ == installed_blocks(depots@.take(i as int)),
            mounted@ == mounted_lines(depots@.take(i as int)),
        decreases depots.len() - i,
    {
        let d = depots[i].0;
        let gid = depots[i].1.gid;
        let size = depots[i].1.size;
        let ghost e = depots@[i as int];
        proof {
            assert(depots@.take(i as int + 1).drop_last() =~= depots@.take(i as int));
            assert(depots@.take(i as int + 1).last() == e);
        }
        installed.push_str("\t\t\"");
        installed.push_str(&decimal_string(d as u64));
        installed.push_str("\"\n\t\t{\n\t\t\t\"manifest\"\t\t\"");
        installed.push_str(&decimal_string(gid));
        installed.push_str("\"\n\t\t\t\"size\"\t\t\"");
        installed.push_str(&decimal_string(size));
        installed.push_str("\"\n\t\t}\n");
        mounted.push_str("\t\t\"");
        mounted.push_str(&decimal_string(d as u64));
        mounted.push_str("\"\t\t\"");
        mounted.push_str(&decimal_string(gid));
        mounted.push_str("\"\n");
        proof {
            assert(installed@ =~= installed_blocks(depots@.take(i as int)) + installed_block(e.0, e.1));
            assert(mounted@ =~= mounted_lines(depots@.take(i as int)) + mounted_line(e.0, e.1));
        }
        i = i + 1;
    }
    assert(depots@.take(depots.len() as int) =~= depots@);
    let mut section = String::new();
    if depots.len() > 0 {
        section.push_str("\t\"InstalledDepots\"\n\t{\n");
        section.push_str(&installed);
        section.push_str("\t}\n\t\"MountedDepots\"\n\t{\n");
        section.push_str(&mounted);
        section.push_str("\t}\n");
    }
    let mut r = String::new();
    r.push_str("\"AppState\"\n{\n\t\"appid\"\t\t\"");
    r.push_str(appid);
    r.push_str("\"\n\t\"Universe\"\t\t\"1\"\n\t\"name\"\t\t\"");
    r.push_str(name);
    r.push_str("\"\n\t\"StateFlags\"\t\t\"4\"\n\t\"installdir\"\t\t\"");
    r.push_str(install_dir);
    r.push_str("\"\n\t\"LastUpdated\"\t\t\"");
    r.push_str(&decimal_string(timestamp));
    r.push_str("\"\n\t\"UpdateResult\"\t\t\"0\"\n\t\"SizeOnDisk\"\t\t\"");
    r.push_str(&decimal_string(total_size));
    r.push_str("\"\n\t\"buildid\"\t\t\"");
    r.push_str(&decimal_string(build_id));
    r.push_str("\"\n\t\"LastOwner\"\t\t\"76561198000000000\"\n\t\"BytesToDownload\"\t\t\"0\"\n\t\"BytesDownloaded\"\t\t\"0\"\n\t\"BytesToStage\"\t\t\"0\"\n\t\"BytesStaged\"\t\t\"0\"\n\t\"AutoUpdateBehavior\"\t\t\"0\"\n");
    r.push_str(&section);
    r.push_str("\n}");
    proof {
        if depots.len() > 0 {
            assert(section@ =~= depots_section(depots@));
        } else {
            assert(section@ =~= depots_section(depots@));
        }
        assert(r@ =~= ghost_acf(appid@, name@, install_dir@, timestamp, total_size, build_id, depots@));
    }
    r
}

/// The app manifest text stamped with the current time.
pub fn generate_ghost_acf(
    appid: &str,
    game_name: &str,
    install_dir: &str,
    depots: &Vec<(u32, AcfDepotInfo)>,
    build_id: u64,
    total_size: u64,
) -> (r: String)
    ensures
        exists|t: u64| r@ == ghost_acf(appid@, game_name@, install_dir@, t, total_size, build_id, depots@),
{
    let t = crate::registry::unix_time_secs();
    ghost_acf_text(appid, game_name, install_dir, t, total_size, build_id, depots)
}

// ---------------------------------------------------------------------------
// Library folders and keys in Steam's documents
// ---------------------------------------------------------------------------

/// The first `path` of each library entry, cleaned.
pub open spec fn first_paths(es: Seq<(Seq<char>, crate::vdf_model::VdfNode)>) -> Seq<Seq<char>>
    decreases es.len(),
{
    if es.len() == 0 {
        Seq::empty()
    } else {
        let rest = first_paths(es.drop_last());
        match crate::vdf_model::node_get(es.last().1, "path"@) {
            Some(crate::vdf_model::VdfNode::Str(p)) => rest.push(crate::text::clean_library_path(p)),
            _ => rest,
        }
    }
}

/// The library paths a `libraryfolders.vdf` lists: under `libraryfolders`
/// (or the whole document without one), each entry's first `path`.
pub open spec fn listed_library_paths(parsed: crate::vdf_model::VdfNode) -> Seq<Seq<char>> {
    let root = match crate::vdf_model::node_get(parsed, "libraryfolders"@) {
        Some(lf) => lf,
        None => parsed,
    };
    match root {
        crate::vdf_model::VdfNode::Obj(es) => first_paths(es),
        crate::vdf_model::VdfNode::Str(_) => Seq::empty(),
    }
}

/// The library folders: the Steam folder, then every other folder the
/// parsed `libraryfolders.vdf` (when it could be read) lists.
pub fn get_all_library_folders(steam_path: &str, parsed: Option<&vdf::VdfValue>) -> (r: Vec<crate::paths::PathText>)
    ensures
        crate::game_path::paths_view(r@) == crate::game_path::library_folder_list(steam_path@, match parsed {
            Some(p) => listed_library_paths(p@),
            None => Seq::empty(),
        }),
{
    let mut listed: Vec<String> = Vec::new();
    match parsed {
        Some(p) => {
            let root = match p.find_key("libraryfolders") {
                Some(lf) => lf,
                None => p,
            };
            match root.get_obj() {
                Some(es) => {
                    proof { vdf::lemma_entries_of(es@); }
                    let ghost ev = vdf::entries_of(es@);
                    let mut i: usize = 0;
                    while i < es.len()
                        invariant
                            i <= es.len(),
                            ev == vdf::entries_of(es@),
                            ev.len() == es.len(),
                            forall|j: int| 0 <= j < es.len() ==> #[trigger] ev[j] == (es@[j].0@, (es@[j].1)@),
                            crate::text::strings_view(listed@) == first_paths(ev.take(i as int)),
                        decreases es.len() - i,
                    {
                        proof {
                            assert(ev.take(i as int + 1).drop_last() =~= ev.take(i as int));
                            assert(ev.take(i as int + 1).last() == ev[i as int]);
                        }
                        match es[i].1.find_key("path") {
                            Some(v) => match v.get_str() {
                                Some(t) => {
                                    let c = crate::text::clean_library_path_text(t);
                                    proof { crate::text::lemma_strings_view_push(listed@, c); }
                                    listed.push(c);
                                },
                                None => {},
                            },
                            None => {},
                        }
                        i = i + 1;
                    }
                    assert(ev.take(es.len() as int) =~= ev);
                },
                None => {},
            }
        },
        None => {},
    }
    let ghost lv = crate::text::strings_view(listed@);
    let mut out: Vec<crate::paths::PathText> = Vec::new();
    out.push(crate::paths::PathText::new(steam_path));
    assert(crate::game_path::paths_view(out@) =~= crate::game_path::library_folder_list(steam_path@, lv.take(0)));
    let mut k: usize = 0;
    while k < listed.len()
        invariant
            k <= listed.len(),
            lv == crate::text::strings_view(listed@),
            crate::game_path::paths_view(out@) == crate::game_path::library_folder_list(steam_path@, lv.take(k as int)),
        decreases listed.len() - k,
    {
        proof {
            assert(lv.take(k as int + 1).drop_last() =~= lv.take(k as int));
            assert(lv[k as int] == listed@[k as int]@);
        }
        if !crate::game_path::same_path_text(&listed[k], steam_path) {
            let p = crate::paths::PathText::new(&listed[k]);
            let ghost before = crate::game_path::paths_view(out@);
            out.push(p);
            assert(crate::game_path::paths_view(out@) =~= before.push(seq![lv[k as int]]));
        }
        k = k + 1;
    }
    assert(lv.take(listed.len() as int) =~= lv);
    out
}

pub open spec fn numbered_keys(keys: Seq<(u32, String)>) -> Seq<(Seq<char>, Seq<char>)> {
    keys.map_values(|k: (u32, String)| (decimal(k.0 as nat), k.1@))
}

/// The new text of `config.vdf` with the keys (by depot number) injected, or
/// why it cannot take them.
pub fn inject_keys_into_config(config_text: &str, keys: &Vec<(u32, String)>) -> (r: Result<String, crate::injector::vdf::InjectError>)
    ensures
        match crate::injector::vdf::injected(crate::vdf_model::parse_document(config_text@), numbered_keys(keys@)) {
            None => r == Err::<String, crate::injector::vdf::InjectError>(crate::injector::vdf::InjectError::MissingInstallConfigStore),
            Some(n) => r is Ok && r->Ok_0@ == crate::vdf_model::write_document(n),
        },
{
    let mut named: Vec<(String, String)> = Vec::new();
    let mut i: usize = 0;
    while i < keys.len()
        invariant
            i <= keys.len(),
            crate::app_list::pairs_view(named@) == numbered_keys(keys@).take(i as int),
        decreases keys.len() - i,
    {
        let ghost before = crate::app_list::pairs_view(named@);
        let d = decimal_string(keys[i].0 as u64);
        let k = keys[i].1.clone();
        let ghost e = (d@, k@);
        assert(e == numbered_keys(keys@)[i as int]);
        named.push((d, k));
        assert(crate::app_list::pairs_view(named@) =~= before.push(e));
        assert(numbered_keys(keys@).take(i as int + 1) =~= numbered_keys(keys@).take(i as int).push(e));
        i = i + 1;
    }
    assert(numbered_keys(keys@).take(keys.len() as int) =~= numbered_keys(keys@));
    crate::injector::vdf::VdfInjector::new("").inject_vdf(config_text, &named)
}

} // verus!
