use darkcore::api::{AppInfoError, DepotInfo, app_info_from_json, filter_depots_by_language};
use darkcore::commands::import::count_manifests;
use darkcore::commands::integrity::{ManifestFileState, expected_files, integrity_report};
use darkcore::desktop::{default_steam_candidates, desktop_entry};
use darkcore::injector::vdf::{InjectError, VdfInjector};
use darkcore::json::JsonValue;
use darkcore::services::steam_api::{app_info_from_json as service_info, app_info_url};
use darkcore::text::{decimal_string, parse_u64_text, trim_text};
use darkcore::utils::vdf::VdfParser;
use darkcore::utils::{AcfDepotInfo, ghost_acf_text, generate_ghost_acf};
use darkcore::vdf_injector::{VdfInjector as LuaInjector, parse_lua_for_keys};
use darkcore::watcher::{AcfStatus, UpdateCheckResult, WatcherState, acf_app_id, acf_build_id, acf_state_flags,
    broken_managed_game, is_update_candidate, state_requires_update, update_needed};

fn s(v: &str) -> String {
    v.to_string()
}

fn key(c: char) -> String {
    std::iter::repeat(c).take(64).collect()
}

#[test]
fn lua_keys_three_two_and_id_forms() {
    let k1 = key('a');
    let k2 = key('B');
    let k3 = key('c');
    let script = format!(
        "-- addappid(999)\naddappid(100)\n  addappid( 101 , 0, \"{}\" )\r\naddappid(102,'{}')\naddappid(101, 1, \"{}\")\naddappid(102, \"{}\")\nsetManifestid(101, \"1\")\naddappid(100)\n",
        k1, k2, k3, k1
    );
    let (ids, keys) = parse_lua_for_keys(&script);
    assert_eq!(ids, vec![s("100"), s("101")]);
    assert_eq!(keys, vec![(s("101"), k3.clone()), (s("102"), k2.clone())]);
    let (ids, keys) = parse_lua_for_keys("addappid(5, \"abc\")\naddappid(6, 1, \"xyz\")");
    assert!(ids.is_empty());
    assert!(keys.is_empty());
}

#[test]
fn lua_lists_only_the_first_keyed_id() {
    let k1 = key('a');
    let k2 = key('b');
    let script = format!("addappid(100)\naddappid(101, 1, \"{}\")\naddappid(102, 1, \"{}\")", k1, k2);
    let (ids, keys) = parse_lua_for_keys(&script);
    assert_eq!(ids, vec![s("100"), s("101")]);
    assert_eq!(keys, vec![(s("101"), k1), (s("102"), k2)]);
}

#[test]
fn injector_sets_and_removes_keys() {
    let inj = VdfInjector::new("C:\\Steam");
    assert_eq!(inj.config_path().parts, vec![s("C:\\Steam"), s("config"), s("config.vdf")]);
    let cfg = "\"InstallConfigStore\"\n{\n\t\"Software\"\n\t{\n\t\t\"Valve\"\n\t\t{\n\t\t\t\"Steam\"\n\t\t\t{\n\t\t\t\t\"depots\"\n\t\t\t\t{\n\t\t\t\t\t\"11\"\n\t\t\t\t\t{\n\t\t\t\t\t\t\"DecryptionKey\"\t\t\"old\"\n\t\t\t\t\t}\n\t\t\t\t}\n\t\t\t}\n\t\t}\n\t}\n}\n";
    let keys = vec![(s("11"), s("new")), (s("12"), s("k12"))];
    let out = inj.inject_vdf(cfg, &keys).ok().unwrap();
    let root = VdfParser::parse(&out).unwrap();
    let depots = root.find_key("InstallConfigStore").unwrap().find_key("Software").unwrap().find_key("Valve").unwrap()
        .find_key("Steam").unwrap().find_key("depots").unwrap();
    assert_eq!(depots.find_key("11").unwrap().find_key("DecryptionKey").unwrap().get_str(), Some("new"));
    assert_eq!(depots.find_key("12").unwrap().find_key("DecryptionKey").unwrap().get_str(), Some("k12"));
    let (n, text) = inj.remove_vdf_keys(&out, &vec![s("12"), s("99")]);
    assert_eq!(n, 1);
    let after = VdfParser::parse(&text.unwrap()).unwrap();
    assert!(!after.find_key("InstallConfigStore").unwrap().find_key("Software").unwrap().find_key("Valve").unwrap()
        .find_key("Steam").unwrap().find_key("depots").unwrap().has_key("12"));
    assert_eq!(inj.remove_vdf_keys(&out, &vec![s("77")]), (0, None));
    assert!(matches!(inj.inject_vdf("\"Other\" {}", &keys), Err(InjectError::MissingInstallConfigStore)));
    assert_eq!(InjectError::MissingInstallConfigStore.message(), "Invalid config.vdf structure (missing InstallConfigStore)");
    let created = inj.inject_vdf("\"InstallConfigStore\" { }", &keys).ok().unwrap();
    let r = VdfParser::parse(&created).unwrap();
    assert!(r.find_key("InstallConfigStore").unwrap().find_key("Software").is_some());
    let mut l = LuaInjector::new("A");
    l.set_paths("B");
    assert_eq!(l.config_path().parts, vec![s("B"), s("config"), s("config.vdf")]);
}

#[test]
fn acf_fields_and_state_flags() {
    let acf = "\"AppState\"\n{\n\t\"appid\"\t\t\"730\"\n\t\"StateFlags\"\t\t\"6\"\n\t\"buildid\"\t\t\"12345\"\n}";
    assert_eq!(acf_app_id(acf), "730");
    assert_eq!(acf_state_flags(acf), 6);
    assert_eq!(acf_build_id(acf), 12345);
    assert_eq!(acf_state_flags("\"StateFlags\" \"x\""), 0);
    assert_eq!(acf_app_id("nothing"), "");
    assert!(state_requires_update(6));
    assert!(state_requires_update(1026));
    assert!(state_requires_update(3));
    assert!(!state_requires_update(4));
    assert_eq!(broken_managed_game("appmanifest_730.acf", acf, &vec![s("730")]), Some(s("730")));
    assert_eq!(broken_managed_game("appmanifest_730.acf", acf, &vec![s("1")]), None);
    assert_eq!(broken_managed_game("other.acf", acf, &vec![s("730")]), None);
    assert!(is_update_candidate("Portal"));
    assert!(!is_update_candidate("Depot (5)"));
    assert!(!is_update_candidate("X (Content)"));
}

#[test]
fn update_verdicts() {
    let acf = AcfStatus { found: true, content: Some(s("\"buildid\" \"10\" \"StateFlags\" \"4\"")) };
    let depots = vec![(s("5"), Some(s("100"))), (s("6"), None)];
    assert_eq!(update_needed(11, &acf, None, &depots), (10, true));
    assert_eq!(update_needed(10, &acf, None, &depots), (10, false));
    let missing = AcfStatus { found: false, content: None };
    let cache = vec![s("5_99.manifest"), s("7_1.manifest")];
    assert_eq!(update_needed(10, &missing, Some(&cache), &depots), (0, true));
    let current = vec![s("5_100.manifest"), s("5_99.manifest")];
    assert_eq!(update_needed(10, &missing, Some(&current), &depots), (0, false));
    assert_eq!(update_needed(10, &missing, None, &depots), (0, false));
    let flagged = AcfStatus { found: true, content: Some(s("\"StateFlags\" \"1026\"")) };
    assert_eq!(update_needed(0, &flagged, None, &depots), (0, true));
}

#[test]
fn watcher_state_bookkeeping() {
    let mut st = WatcherState::new();
    st.flag_pending(s("1"));
    st.flag_pending(s("1"));
    st.flag_pending(s("2"));
    assert_eq!(st.pending_updates, vec![(s("1"), 0, 0), (s("2"), 0, 0)]);
    st.record_build(s("1"), 5);
    st.record_build(s("1"), 6);
    st.record_build(s("3"), 1);
    assert_eq!(st.known_builds, vec![(s("1"), 6), (s("3"), 1)]);
    let results = vec![
        UpdateCheckResult { app_id: s("1"), name: s("A"), old_build: Some(4), new_build: 6, needs_update: true },
        UpdateCheckResult { app_id: s("2"), name: s("B"), old_build: None, new_build: 1, needs_update: false },
        UpdateCheckResult { app_id: s("3"), name: s("C"), old_build: None, new_build: 9, needs_update: true },
    ];
    st.set_pending(&results);
    assert_eq!(st.pending_updates, vec![(s("1"), 4, 6), (s("3"), 0, 9)]);
}

#[test]
fn integrity_report_statuses() {
    let depots = vec![(s("1"), Some(s("10"))), (s("2"), Some(s("20"))), (s("3"), None)];
    let files = expected_files(&depots);
    assert_eq!(files, vec![Some(s("1_10.manifest")), Some(s("2_20.manifest")), None]);
    let good = ManifestFileState { exists: true, len: 51, head: Some(vec![0xD0, 0x17, 0xF6, 0x71]) };
    let short = ManifestFileState { exists: true, len: 50, head: Some(vec![0xD0, 0x17, 0xF6, 0x71]) };
    let absent = ManifestFileState { exists: false, len: 0, head: None };
    let r = integrity_report(s("9"), &depots, &vec![good, short, ManifestFileState { exists: false, len: 0, head: None }], 7);
    assert_eq!(r.status, "CORRUPT");
    assert_eq!(r.corrupt_manifests, vec![s("2")]);
    assert!(r.missing_depots.is_empty());
    let good2 = ManifestFileState { exists: true, len: 60, head: Some(vec![0xD0, 0x17, 0xF6, 0x71]) };
    let ok2 = ManifestFileState { exists: true, len: 60, head: Some(vec![0xD0, 0x17, 0xF6, 0x71]) };
    let r = integrity_report(s("9"), &depots, &vec![good2, absent, ok2], 8);
    assert_eq!(r.status, "MISSING_MANIFESTS");
    assert_eq!(r.missing_depots, vec![s("2 (latest)")]);
    assert_eq!(r.timestamp, 8);
    assert_eq!(count_manifests(&vec![s("a.manifest"), s("b.lua"), s("c.manifest"), s("d.txt")]), 2);
}

fn jobj(v: Vec<(&str, JsonValue)>) -> JsonValue {
    JsonValue::Object(v.into_iter().map(|(k, x)| (k.to_string(), x)).collect())
}

fn jstr(v: &str) -> JsonValue {
    JsonValue::Str(v.to_string())
}

#[test]
fn app_info_from_steamcmd_answer() {
    let depot = |gid: Option<&str>, lang: Option<&str>| {
        let mut m = vec![];
        if let Some(g) = gid {
            m.push(("manifests", jobj(vec![("public", jobj(vec![("gid", jstr(g))]))])));
        }
        if let Some(l) = lang {
            m.push(("config", jobj(vec![("language", jstr(l))])));
        }
        jobj(m)
    };
    let root = jobj(vec![("data", jobj(vec![("440", jobj(vec![
        ("common", jobj(vec![("name", jstr("Team Fortress 2"))])),
        ("depots", jobj(vec![
            ("441", depot(Some("111"), None)),
            ("442", depot(Some("222"), Some("Italian"))),
            ("443", depot(None, None)),
            ("branches", jobj(vec![("public", jobj(vec![("buildid", jstr("9000"))]))])),
        ])),
        ("extended", jobj(vec![("listofdlc", jstr(" 1, 2 ,,3"))])),
    ]))]))]);
    let info = app_info_from_json(&root, "440").ok().unwrap();
    assert_eq!(info.name, Some(s("Team Fortress 2")));
    assert_eq!(info.buildid, Some(9000));
    assert_eq!(info.depots.len(), 2);
    assert_eq!(info.depots[1].0, "442");
    assert_eq!(info.depots[1].1.language, Some(s("italian")));
    assert_eq!(info.dlcs, vec![s("1"), s("2"), s("3")]);
    assert!(matches!(app_info_from_json(&root, "1"), Err(AppInfoError::AppNotFound)));
    let svc = service_info(&root, "440").ok().unwrap();
    assert_eq!(svc.depots[0].1.gid, Some(s("111")));
    assert_eq!(app_info_url("440"), "https://api.steamcmd.net/v1/info/440");
}

#[test]
fn depots_filtered_by_language() {
    let d = |l: Option<&str>| DepotInfo { gid: Some(s("1")), language: l.map(s) };
    let depots = vec![(s("1"), d(None)), (s("2"), d(Some("english"))), (s("3"), d(Some("italian"))), (s("4"), d(Some("german")))];
    let kept: Vec<String> = filter_depots_by_language(&depots, "Italian").into_iter().map(|e| e.0).collect();
    assert_eq!(kept, vec![s("1"), s("3")]);
    let kept: Vec<String> = filter_depots_by_language(&depots, "french").into_iter().map(|e| e.0).collect();
    assert_eq!(kept, vec![s("1"), s("2")]);
}

#[test]
fn ghost_manifest_text() {
    let depots = vec![(10u32, AcfDepotInfo { gid: 5, size: 6 })];
    let t = ghost_acf_text("7", "Game", "dir", 100, 200, 300, &depots);
    assert!(t.starts_with("\"AppState\"\n{\n\t\"appid\"\t\t\"7\"\n\t\"Universe\"\t\t\"1\"\n\t\"name\"\t\t\"Game\"\n"));
    assert!(t.contains("\t\"LastUpdated\"\t\t\"100\"\n"));
    assert!(t.contains("\t\"SizeOnDisk\"\t\t\"200\"\n\t\"buildid\"\t\t\"300\"\n"));
    assert!(t.contains("\t\"InstalledDepots\"\n\t{\n\t\t\"10\"\n\t\t{\n\t\t\t\"manifest\"\t\t\"5\"\n\t\t\t\"size\"\t\t\"6\"\n\t\t}\n\t}\n"));
    assert!(t.ends_with("\t\"MountedDepots\"\n\t{\n\t\t\"10\"\t\t\"5\"\n\t}\n\n}"));
    let bare = ghost_acf_text("7", "G", "d", 1, 2, 3, &vec![]);
    assert!(bare.ends_with("\"AutoUpdateBehavior\"\t\t\"0\"\n\n}"));
    let now = generate_ghost_acf("7", "G", "d", &vec![], 3, 2);
    assert!(now.contains("\"buildid\"\t\t\"3\""));
    assert!(!now.contains("\"LastUpdated\"\t\t\"0\""));
}

#[test]
fn desktop_records() {
    let e = desktop_entry("5", "0.txt", &vec![(s("5"), s("Unknown"))], &vec![s("5")]);
    assert_eq!(e.name, "Depot (5)");
    let e = desktop_entry("6", "1.txt", &vec![], &vec![]);
    assert_eq!(e.name, "Unknown");
    assert_eq!(default_steam_candidates().len(), 2);
}

#[test]
fn text_helpers() {
    assert_eq!(decimal_string(0), "0");
    assert_eq!(decimal_string(18446744073709551615), "18446744073709551615");
    assert_eq!(parse_u64_text("+42"), Some(42));
    assert_eq!(parse_u64_text("18446744073709551616"), None);
    assert_eq!(parse_u64_text(""), None);
    assert_eq!(trim_text("\u{3000} a b \r\n"), "a b");
}

#[test]
fn language_filter_twice_is_once() {
    let d = |l: Option<&str>| DepotInfo { gid: Some(s("1")), language: l.map(s) };
    let depots = vec![(s("1"), d(None)), (s("2"), d(Some("english"))), (s("3"), d(Some("italian")))];
    for lang in ["italian", "french"] {
        let once = filter_depots_by_language(&depots, lang);
        let twice = filter_depots_by_language(&once, lang);
        let a: Vec<String> = once.into_iter().map(|e| e.0).collect();
        let b: Vec<String> = twice.into_iter().map(|e| e.0).collect();
        assert_eq!(a, b);
    }
}

#[test]
fn lua_ids_accept_unicode_decimal_digits() {
    let (ids, _) = parse_lua_for_keys("addappid(\u{0661}\u{0662})\naddappid(7)");
    assert_eq!(ids, vec![s("\u{0661}\u{0662}"), s("7")]);
}
