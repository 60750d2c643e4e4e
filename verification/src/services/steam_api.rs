//! The SteamCMD information service as the download services see it.
use vstd::prelude::*;
use crate::api::{AppInfoError, DepotInfoModel, app_info, opt_text, depot_entries_view};
use crate::json::JsonValue;
use crate::text::strings_view;

verus! {

/// Public information about an app: build, depots (by id) and DLC ids.
pub struct SteamCmdInfo {
    pub buildid: Option<u64>,
    pub depots: Vec<(String, DepotInfo)>,
    pub dlcs: Vec<String>,
}

/// A depot's manifest id and language (`None` for a depot common to all).
pub struct DepotInfo {
    pub gid: Option<String>,
    pub language: Option<String>,
}

pub open spec fn depots_model(ds: Seq<(String, DepotInfo)>) -> Seq<(Seq<char>, DepotInfoModel)> {
    ds.map_values(|e: (String, DepotInfo)| (e.0@, DepotInfoModel { gid: opt_text(e.1.gid), language: opt_text(e.1.language) }))
}

/// The public information a SteamCMD answer gives about an app.
pub fn app_info_from_json(root: &JsonValue, appid: &str) -> (r: Result<SteamCmdInfo, AppInfoError>)
    ensures
        match app_info(*root, appid@) {
            Ok(m) => r matches Ok(i) && i.buildid == m.buildid && depots_model(i.depots@) == m.depots
                && strings_view(i.dlcs@) == m.dlcs,
            Err(e) => r == Err::<SteamCmdInfo, AppInfoError>(e),
        },
{
    match crate::api::app_info_from_json(root, appid) {
        Err(e) => Err(e),
        Ok(info) => {
            let mut depots: Vec<(String, DepotInfo)> = Vec::new();
            let mut i: usize = 0;
            while i < info.depots.len()
                invariant
                    i <= info.depots.len(),
                    depots.len() == i,
                    depots_model(depots@) == depot_entries_view(info.depots@).take(i as int),
                decreases info.depots.len() - i,
            {
                let e = &info.depots[i];
                let d = (e.0.clone(), DepotInfo { gid: copy_text(&e.1.gid), language: copy_text(&e.1.language) });
                let ghost before = depots@;
                assert(d.0@ == info.depots@[i as int].0@);
                assert(opt_text(d.1.gid) == opt_text(info.depots@[i as int].1.gid));
                assert(opt_text(d.1.language) == opt_text(info.depots@[i as int].1.language));
                depots.push(d);
                assert(depots@[i as int] == d);
                assert(depots_model(depots@)[i as int] == depot_entries_view(info.depots@)[i as int]);
                assert(depots_model(depots@) =~= depots_model(before).push(depot_entries_view(info.depots@)[i as int]));
                assert(depots_model(depots@) =~= depot_entries_view(info.depots@).take(i as int + 1));
                i = i + 1;
            }
            assert(depot_entries_view(info.depots@).take(info.depots.len() as int) =~= depot_entries_view(info.depots@));
            Ok(SteamCmdInfo { buildid: info.buildid, depots, dlcs: info.dlcs })
        },
    }
}

fn copy_text(o: &Option<String>) -> (r: Option<String>)
    ensures
        opt_text(r) == opt_text(*o),
{
    match o {
        Some(s) => Some(s.clone()),
        None => None,
    }
}

/// Where the SteamCMD information about an app is asked for.
pub fn app_info_url(appid: &str) -> (r: String)
    ensures
        r@ == "https://api.steamcmd.net/v1/info/"@ + appid@,
{
    crate::text::concat("https://api.steamcmd.net/v1/info/", appid)
}

} // verus!
