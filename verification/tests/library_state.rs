use darkcore::app_list::{AppListManager, ListedFile, ViewTables, classify_entry, resolve_name, sort_by_name, sort_numeric};
use darkcore::config::{AppConfig, ConfigManager, config_path_in, default_language, find_default_steam, steam_path_candidates};
use darkcore::order::stable_order_by_key;
use darkcore::paths::PathText;
use darkcore::profiles::{Profile, ProfileManager, profile_name};
use darkcore::registry::{InstallRegistry, InstallSource};
use darkcore::vault::{FileStatus, VaultManager, is_manifest_of_any, manifest_file_name};

fn s(v: &str) -> String {
    v.to_string()
}

fn pairs(v: &[(&str, &str)]) -> Vec<(String, String)> {
    v.iter().map(|(a, b)| (s(a), s(b))).collect()
}

fn tables() -> ViewTables {
    ViewTables {
        cache: pairs(&[("10", "Ten"), ("20", "AppID 20"), ("30", "Thirty")]),
        relationships: pairs(&[("21", "30"), ("22", "99")]),
        types: pairs(&[("40", "depot")]),
        family_ids: vec![s("50")],
        pending: pairs(&[("10", "Build 1 -> 2")]),
    }
}

#[test]
fn names_follow_the_resolution_layers() {
    let t = tables();
    let depots = vec![s("22"), s("77")];
    assert_eq!(resolve_name("10", &t, &depots), "Ten");
    assert_eq!(resolve_name("21", &t, &depots), "Thirty (Content)");
    assert_eq!(resolve_name("22", &t, &depots), "Depot (22)");
    assert_eq!(resolve_name("20", &t, &depots), "AppID 20");
    assert_eq!(resolve_name("77", &t, &depots), "Depot (77)");
    assert_eq!(resolve_name("88", &t, &depots), "AppID 88");
}

#[test]
fn entries_get_type_and_injection_status() {
    let t = tables();
    let applist = vec![s("10"), s("11")];
    let depots: Vec<String> = vec![];
    let root = classify_entry("10", "0.txt", true, &t, &applist, &depots);
    assert_eq!(root.injection_status, "injected");
    assert_eq!(root.item_type, "game");
    assert_eq!(root.pending_update, Some(s("Build 1 -> 2")));
    assert!(root.is_installed);
    let shared = classify_entry("30", "1.txt", false, &t, &applist, &depots);
    assert_eq!(shared.injection_status, "family_shared");
    let child = classify_entry("21", "2.txt", false, &t, &applist, &depots);
    assert_eq!(child.item_type, "dlc");
    assert_eq!(child.injection_status, "injected");
    assert_eq!(child.parent_id, Some(s("30")));
    let forced = classify_entry("50", "3.txt", false, &t, &applist, &depots);
    assert_eq!(forced.injection_status, "family_godmode");
    let typed = classify_entry("40", "4.txt", false, &t, &applist, &depots);
    assert_eq!(typed.item_type, "depot");
    let word = classify_entry("abc", "5.txt", false, &t, &applist, &depots);
    assert_eq!(word.injection_status, "family_shared");
}

#[test]
fn refresh_orders_slots_by_number() {
    let m = AppListManager::new("GL", "ST");
    let files = vec![
        ListedFile { file_name: s("10.txt"), content: Some(s(" 30\n")), installed: false },
        ListedFile { file_name: s("2.txt"), content: Some(s("10")), installed: true },
        ListedFile { file_name: s("x.txt"), content: Some(s("77")), installed: false },
        ListedFile { file_name: s("3.txt"), content: None, installed: false },
    ];
    let depot_files = vec![s("77_123.manifest"), s("nounderscore.manifest")];
    let out = m.refresh_active_games_list(true, &files, &depot_files, &tables());
    let ids: Vec<String> = out.iter().map(|p| p.app_id.clone()).collect();
    assert_eq!(ids, vec![s("10"), s("30"), s("77")]);
    assert_eq!(out[2].name, "Depot (77)");
    assert_eq!(out[0].filename, "2.txt");
    assert!(m.refresh_active_games_list(false, &files, &depot_files, &tables()).is_empty());
}

#[test]
fn reorder_numeric_removes_target_and_repeats() {
    let m = AppListManager::new("GL", "ST");
    let contents = vec![Some(s("30")), Some(s("5")), None, Some(s("x")), Some(s("5 ")), Some(s("7"))];
    let r = m.nuke_reorder(true, &contents, Some("7"), None).unwrap();
    assert_eq!(r, vec![s("5"), s("30"), s("x")]);
    assert!(m.nuke_reorder(false, &contents, None, None).is_none());
}

#[test]
fn reorder_by_name_then_length_then_id() {
    let m = AppListManager::new("GL", "ST");
    let cache = pairs(&[("1", "beta"), ("2", "Alpha"), ("300", "alpha")]);
    let contents = vec![Some(s("1")), Some(s("300")), Some(s("2")), Some(s("9"))];
    let r = m.nuke_reorder(true, &contents, None, Some(&cache)).unwrap();
    assert_eq!(r, vec![s("2"), s("300"), s("1"), s("9")]);
}

#[test]
fn add_and_remove_keep_each_id_once_in_numeric_order() {
    let m = AppListManager::new("GL", "ST");
    let contents = vec![Some(s("20")), Some(s("3")), Some(s("20"))];
    let added = m.add_games_to_list(&contents, &vec![s("100"), s("3"), s("abc")]);
    assert_eq!(added, vec![s("3"), s("20"), s("100"), s("abc")]);
    let removed = m.remove_games_from_list(true, &contents, &vec![s("3")]).unwrap();
    assert_eq!(removed, vec![s("20")]);
    assert!(m.remove_games_from_list(false, &contents, &vec![]).is_none());
}

#[test]
fn sorting_helpers() {
    assert_eq!(stable_order_by_key(&vec![5, 1, 5, 0]), vec![3, 1, 0, 2]);
    assert_eq!(sort_numeric(&vec![s("10"), s("b"), s("2"), s("a")]), vec![s("2"), s("10"), s("b"), s("a")]);
    let cache = pairs(&[("1", "Zed")]);
    assert_eq!(sort_by_name(&vec![s("1"), s("22"), s("3")], &cache), vec![s("1"), s("3"), s("22")]);
}

#[test]
fn list_paths() {
    let mut m = AppListManager::new("GL", "ST");
    assert_eq!(m.slot_path(4).parts, vec![s("GL"), s("AppList"), s("4.txt")]);
    m.set_paths("G2", "S2");
    assert_eq!(m.depot_cache_dir().parts, vec![s("S2"), s("depotcache")]);
    assert_eq!(m.relationships_paths().1.parts, vec![s("G2"), s("relationships.json")]);
}

#[test]
fn config_defaults_and_update() {
    assert_eq!(default_language(), "italian");
    let d = AppConfig::defaults_with(None);
    assert_eq!(d.active_profile, "Default");
    assert!(d.enable_stealth_mode);
    assert_eq!(d.target_language, "italian");
    let mut mgr = ConfigManager::new(config_path_in(Some("C:\\App")), None, Some(s("D:\\Steam")));
    assert_eq!(mgr.get().steam_path, "D:\\Steam");
    assert_eq!(mgr.file_path.parts, vec![s("C:\\App"), s("darkcore_config.json")]);
    let mut c = mgr.get();
    c.api_key = s("key");
    c.family_godmode_ids = vec![s("1")];
    mgr.update(c);
    assert_eq!(mgr.get().api_key, "key");
    assert_eq!(mgr.get().family_godmode_ids, vec![s("1")]);
}

#[test]
fn default_steam_is_first_present_candidate() {
    let cands = steam_path_candidates(Some("C:/Games/Steam"));
    assert_eq!(cands[0], "C:\\Games\\Steam");
    assert_eq!(cands.len(), 5);
    assert_eq!(steam_path_candidates(None)[3], "E:\\Steam");
    assert_eq!(find_default_steam(&cands, &vec![false, false, true, true, false]), Some(s("C:\\Program Files\\Steam")));
    assert_eq!(find_default_steam(&cands, &vec![false; 5]), None);
}

#[test]
fn profile_files_and_names() {
    let pm = ProfileManager::new(Some("base"));
    assert_eq!(pm.profile_path("Main").parts, vec![s("base"), s("Profiles"), s("Main.json")]);
    assert_eq!(profile_name("Main.json"), Some(s("Main")));
    assert_eq!(profile_name("a.b.json"), Some(s("a.b")));
    assert_eq!(profile_name(".json"), None);
    assert_eq!(profile_name("x.txt"), None);
    assert_eq!(profile_name("json"), None);
    let names = pm.profile_names(&vec![s("a.json"), s("b.txt"), s("c.json")]);
    assert_eq!(names, vec![s("a"), s("c")]);
    let p = Profile::empty("New");
    assert_eq!(p.name, "New");
    assert!(p.app_ids.is_empty());
    assert_eq!(ProfileManager::new(None).get_profiles_dir().parts, vec![s("."), s("Profiles")]);
}

#[test]
fn vault_paths_and_freshness() {
    let v = VaultManager::new_local(Some("X"));
    assert_eq!(v.get_lua_path("10").parts, vec![s("X"), s("Vault"), s("10"), s("10.lua")]);
    assert_eq!(v.get_zip_path("10").parts, vec![s("X"), s("Vault"), s("10"), s("10.zip")]);
    assert_eq!(v.get_manifest_path("10", 11, 22).parts, vec![s("X"), s("Vault"), s("10"), s("11_22.manifest")]);
    let lua = FileStatus { path: v.get_lua_path("10"), present: true, is_dir: false, age_secs: Some(86399) };
    assert!(v.is_fresh("10", &lua, 1));
    let old = FileStatus { path: v.get_lua_path("10"), present: true, is_dir: false, age_secs: Some(86400) };
    assert!(!v.is_fresh("10", &old, 1));
    let unknown = FileStatus { path: v.get_zip_path("10"), present: true, is_dir: false, age_secs: None };
    assert!(v.is_zip_fresh("10", &unknown, 0));
    let gone = FileStatus { path: v.get_zip_path("10"), present: false, is_dir: false, age_secs: None };
    assert!(!v.is_zip_fresh("10", &gone, 7));
    assert!(v.lua_exists("10", &lua));
    let marker = FileStatus { path: v.get_failure_marker_path("10"), present: true, is_dir: false, age_secs: Some(59) };
    assert!(v.is_failed_recently("10", &marker, 1));
    let marker_unknown = FileStatus { path: v.get_failure_marker_path("10"), present: true, is_dir: false, age_secs: None };
    assert!(!v.is_failed_recently("10", &marker_unknown, 1));
}

#[test]
fn stored_manifest_is_the_one_verified() {
    let v = VaultManager::new_local(Some("X"));
    let expected = pairs(&[("731", "5001")]);
    let stored = v.get_manifest_path("440", 731, 5001);
    let looked_for = v.expected_manifest_paths("440", &expected);
    assert_eq!(looked_for.len(), 1);
    assert_eq!(stored.parts, looked_for[0].parts);
    let dir = FileStatus { path: v.get_storage_dir("440"), present: true, is_dir: true, age_secs: None };
    assert_eq!(v.verify_manifests("440", &expected, &dir, &vec![true]), (true, vec![]));
}

#[test]
fn vault_manifest_verification() {
    let v = VaultManager::new_local(None);
    let expected = pairs(&[("11", "100"), ("12", "200")]);
    let dir = FileStatus { path: v.get_storage_dir("10"), present: true, is_dir: true, age_secs: None };
    assert!(v.has_manifests("10", &dir));
    let paths = v.expected_manifest_paths("10", &expected);
    assert_eq!(paths[1].parts, vec![s("Vault"), s("10"), s("12_200.manifest")]);
    assert_eq!(v.verify_manifests("10", &expected, &dir, &vec![true, false]), (false, vec![s("12")]));
    assert_eq!(v.verify_manifests("10", &expected, &dir, &vec![true, true]), (true, vec![]));
    let none = FileStatus { path: v.get_storage_dir("10"), present: false, is_dir: false, age_secs: None };
    assert_eq!(v.verify_manifests("10", &expected, &none, &vec![true, true]), (false, vec![s("11"), s("12")]));
    assert_eq!(manifest_file_name("1", "2"), "1_2.manifest");
    assert!(is_manifest_of_any("11_5.manifest", &vec![s("11")]));
    assert!(!is_manifest_of_any("111_5.manifest", &vec![s("11")]));
    assert!(!is_manifest_of_any("11_5.lua", &vec![s("11")]));
    let g = v.vault_entry("10", true, false, true, 5).unwrap();
    assert_eq!(g.name, "AppID 10");
    assert_eq!(g.size_gb, "0.0 GB");
    assert!(v.vault_entry("10", false, true, true, 5).is_none());
}

#[test]
fn registry_register_then_get_source() {
    let mut r = InstallRegistry::new();
    assert!(r.get_source("1").is_none());
    r.register_at(s("1"), s("One"), InstallSource::SteamCMD, s("one"), 10);
    r.register(s("2"), s("Two"), InstallSource::DirectDownload, s("two"));
    assert_eq!(r.get_source("1"), Some(InstallSource::SteamCMD));
    assert_eq!(r.get_source("2"), Some(InstallSource::DirectDownload));
    r.register_at(s("1"), s("One"), InstallSource::DirectDownload, s("one"), 11);
    assert_eq!(r.get_source("1"), Some(InstallSource::DirectDownload));
    assert_eq!(r.deployed_games.len(), 2);
    assert_eq!(InstallRegistry::get_path().parts, vec![s("core_data"), s("registry.json")]);
    let _ = PathText::new("x");
}
