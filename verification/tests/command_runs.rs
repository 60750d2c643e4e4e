use darkcore::app_list::GameProfile;
use darkcore::commands::direct_download::start_direct_download;
use darkcore::commands::steam_install::steam_protocol_install;
use darkcore::commands::watcher::scan_for_updates_async;
use darkcore::direct_download::state::{DownloadState, DownloadStatus};
use darkcore::registry::{InstallRegistry, InstallSource};
use darkcore::watcher::{AcfStatus, FetchedInfo, WatcherState};

fn s(v: &str) -> String {
    v.to_string()
}

fn game(id: &str, name: &str, parent: Option<&str>) -> GameProfile {
    GameProfile {
        app_id: s(id),
        name: s(name),
        filename: s("0.txt"),
        parent_id: parent.map(s),
        item_type: s("game"),
        is_installed: true,
        injection_status: s("injected"),
        pending_update: None,
    }
}

fn info(remote: Option<u64>, acf: Option<&str>) -> Option<FetchedInfo> {
    Some(FetchedInfo {
        remote_build: remote,
        acf: AcfStatus { found: acf.is_some(), content: acf.map(s) },
        cache: None,
        depots: vec![],
    })
}

#[test]
fn direct_download_start_and_refusal() {
    let mut st = DownloadState::new();
    assert_eq!(start_direct_download(&mut st, "10"), Ok(s("Download Initiated via Morrenus ZIP")));
    assert!(matches!(st.status, DownloadStatus::Initializing));
    assert_eq!(st.active_game_id, Some(s("10")));
    st.status = DownloadStatus::Downloading { files: 1, bytes_downloaded: 0, total_bytes: 5 };
    assert_eq!(start_direct_download(&mut st, "11"), Err(s("Download already in progress")));
    assert_eq!(st.active_game_id, Some(s("10")));
}

#[test]
fn steam_install_counts_ids_and_keys_and_registers() {
    let mut reg = InstallRegistry::new();
    let lua = format!(
        "addappid(730)\naddappid(731, 1, \"{}\")\naddappid(732, 1, \"{}\")\n",
        "a".repeat(64),
        "b".repeat(64)
    );
    let out = steam_protocol_install(&mut reg, "730", "CS", None, &lua, None, &vec![s("740")], &vec![228980]);
    assert_eq!(out.final_ids, vec![s("730"), s("731"), s("740"), s("228980")]);
    assert_eq!(out.keys.len(), 2);
    assert!(out.result.success);
    assert_eq!(out.result.applist_ids_count, 4);
    assert_eq!(out.result.keys_injected, 2);
    assert_eq!(out.result.message, "CS installed successfully");
    assert_eq!(reg.get_source("730"), Some(InstallSource::SteamCMD));
    assert_eq!(reg.deployed_games[0].install_dir, "CS");
}

#[test]
fn update_check_lists_outdated_and_flagged_games_once() {
    let games = vec![
        game("1", "One", None),
        game("2", "Depot (2)", None),
        game("3", "Three", None),
        game("1", "One again", None),
        game("4", "Four", None),
    ];
    let fetched = vec![
        info(Some(20), Some("\"buildid\" \"10\"")),
        info(Some(20), Some("\"buildid\" \"10\"")),
        info(Some(10), Some("\"buildid\" \"10\" \"StateFlags\" \"6\"")),
        info(Some(99), Some("\"buildid\" \"10\"")),
        info(Some(10), Some("\"buildid\" \"10\"")),
    ];
    let mut ws = WatcherState::new();
    let res = ws.check_games_for_updates_internal(&games, &fetched);
    let ids: Vec<&str> = res.iter().map(|u| u.app_id.as_str()).collect();
    assert_eq!(ids, vec!["1", "3"]);
    assert_eq!(res[0].new_build, 20);
    assert_eq!(res[0].old_build, Some(10));
    assert!(res.iter().all(|u| u.needs_update));
    assert!(ws.known_builds.contains(&(s("4"), 10)));
    assert!(ws.known_builds.contains(&(s("1"), 20)));
}

#[test]
fn update_scan_builds_the_pending_table() {
    let games = vec![
        game("1", "One", None),
        game("5", "Child", Some("1")),
        game("3", "Three", None),
        game("6", "Six", None),
    ];
    let fetched = vec![
        info(Some(20), Some("\"buildid\" \"10\"")),
        info(Some(20), Some("\"buildid\" \"10\"")),
        info(Some(10), Some("\"buildid\" \"10\" \"StateFlags\" \"6\"")),
        None,
    ];
    let table = scan_for_updates_async(&games, &fetched);
    assert_eq!(table, vec![(s("1"), s("Build 10 \u{2192} 20"), 10, 20)]);
}
