use darkcore::api::{
    DepotNode, DlcNode, DlcSource, GameHierarchy, dlc_node, hierarchy_from, raw_depots, raw_dlc_ids, raw_name,
    sort_nodes_by_id,
};
use darkcore::app_list::GameProfile;
use darkcore::commands::steam_install::record_install_types;
use darkcore::commands::watcher::{
    build_check_targets, cached_manifest_ok, correct_acf, correction_key, correction_url, flag_check_targets,
    flag_reason, head_is_manifest, heal_tables, needs_healing_for,
};
use darkcore::json::JsonValue;
use darkcore::utils::vdf::VdfParser;

fn s(v: &str) -> String {
    v.to_string()
}

fn strings(v: &[&str]) -> Vec<String> {
    v.iter().map(|x| s(x)).collect()
}

fn pairs(v: &[(&str, &str)]) -> Vec<(String, String)> {
    v.iter().map(|(a, b)| (s(a), s(b))).collect()
}

fn game(id: &str, name: &str, parent: Option<&str>) -> GameProfile {
    GameProfile {
        app_id: s(id),
        name: s(name),
        filename: s("0.txt"),
        parent_id: parent.map(s),
        item_type: s("game"),
        is_installed: true,
        injection_status: s("injected"),
        pending_update: None,
    }
}

fn obj(members: Vec<(&str, JsonValue)>) -> JsonValue {
    JsonValue::Object(members.into_iter().map(|(k, v)| (s(k), v)).collect())
}

fn text(v: &str) -> JsonValue {
    JsonValue::Str(s(v))
}

fn answer(appid: &str, app: JsonValue) -> JsonValue {
    obj(vec![("data", obj(vec![(appid, app)]))])
}

fn sample_app() -> JsonValue {
    obj(vec![
        ("common", obj(vec![("name", text("Space Game"))])),
        ("extended", obj(vec![("listofdlc", text(" 900, 50 ,,900"))])),
        (
            "depots",
            obj(vec![
                (
                    "731",
                    obj(vec![
                        ("config", obj(vec![("oslist", text("windows,macos"))])),
                        ("manifests", obj(vec![("public", obj(vec![("gid", text("123"))]))])),
                        ("maxsize", text("1000")),
                    ]),
                ),
                (
                    "732",
                    obj(vec![
                        ("config", obj(vec![("language", text("French"))])),
                        ("manifests", obj(vec![("public", obj(vec![("gid", JsonValue::Number(s("456")))]))])),
                        ("maxsize", JsonValue::Number(s("2000"))),
                        ("dlcappid", text("700")),
                    ]),
                ),
                ("733", obj(vec![("config", obj(vec![("oslist", text("linux"))]))])),
                ("734", obj(vec![("config", obj(vec![("language", text("german"))]))])),
                ("branches", obj(vec![])),
            ]),
        ),
    ])
}

#[test]
fn install_state_check_targets_first_entries_without_parent() {
    let games = vec![game("10", "A", None), game("11", "B", Some("10")), game("10", "A", None), game("12", "C", None)];
    assert_eq!(flag_check_targets(&games), strings(&["10", "12"]));
    let child_first = vec![game("20", "X", Some("1")), game("20", "X", None)];
    assert!(flag_check_targets(&child_first).is_empty());
}

#[test]
fn build_check_targets_skip_depots_and_content() {
    let games = vec![
        game("5", "Depot (5)", None),
        game("10", "Game", None),
        game("11", "Child", Some("10")),
        game("10", "Game", None),
        game("12", "Pack (Content)", None),
    ];
    assert_eq!(build_check_targets(&games, true), strings(&["10"]));
    assert_eq!(build_check_targets(&games, false), strings(&["10", "11"]));
}

#[test]
fn install_state_reasons() {
    let acf = |flags: &str| format!("\"AppState\"\n{{\n\t\"appid\"\t\t\"10\"\n\t\"StateFlags\"\t\t\"{}\"\n}}\n", flags);
    assert_eq!(flag_reason(&acf("6")), Some(s("StateFlags: 6")));
    assert_eq!(flag_reason(&acf("1026")), Some(s("StateFlags: 1026")));
    assert_eq!(flag_reason(&acf("4")), None);
    assert_eq!(flag_reason(&acf("x")), None);
    assert_eq!(flag_reason("\"Other\" { }"), None);
}

#[test]
fn correction_marks_installed_and_repoints_depots() {
    let acf = "\"AppState\"\n{\n\t\"StateFlags\"\t\t\"6\"\n\t\"InstalledDepots\"\n\t{\n\t\t\"731\"\n\t\t{\n\t\t\t\"manifest\"\t\t\"1\"\n\t\t}\n\t\t\"732\"\n\t\t{\n\t\t\t\"manifest\"\t\t\"2\"\n\t\t}\n\t}\n}\n";
    let mut root = VdfParser::parse(acf).unwrap();
    correct_acf(&mut root, &pairs(&[("731", "555"), ("999", "7")]));
    let out = VdfParser::serialize(&root);
    let again = VdfParser::parse(&out).unwrap();
    let state = again.find_key("AppState").unwrap();
    assert_eq!(state.find_key("StateFlags").unwrap().get_str(), Some("4"));
    let depots = state.find_key("InstalledDepots").unwrap();
    assert_eq!(depots.find_key("731").unwrap().find_key("manifest").unwrap().get_str(), Some("555"));
    assert_eq!(depots.find_key("732").unwrap().find_key("manifest").unwrap().get_str(), Some("2"));
}

#[test]
fn correction_keys_and_urls() {
    let key: String = (0..32).map(|_| "0a").collect();
    let keys = pairs(&[("731", &key), ("732", "abc")]);
    assert_eq!(correction_key(&keys, "731"), Some([10u8; 32]));
    assert_eq!(correction_key(&keys, "732"), None);
    assert_eq!(correction_key(&keys, "733"), None);
    assert_eq!(correction_url("731", "99"), "http://valve.vo.llnwd.net/steampowered/depot/731/manifest/99/5");
}

#[test]
fn healing_is_needed_without_children_or_types() {
    let rels = pairs(&[("11", "10"), ("21", "20")]);
    assert!(needs_healing_for(&rels, &pairs(&[]), "10"));
    assert!(!needs_healing_for(&rels, &pairs(&[("11", "dlc")]), "10"));
    assert!(needs_healing_for(&rels, &pairs(&[("11", "dlc")]), "30"));
}

fn small_hierarchy() -> GameHierarchy {
    GameHierarchy {
        root_id: s("10"),
        root_name: s("Game"),
        base_depots: vec![DepotNode { depot_id: s("11"), gid: None, size: None, language: None, is_common: true, is_dlc_depot: false }],
        dlcs: vec![DlcNode {
            app_id: s("20"),
            name: s("Pack"),
            depots: vec![DepotNode { depot_id: s("21"), gid: None, size: None, language: None, is_common: true, is_dlc_depot: true }],
            selected: true,
        }],
    }
}

#[test]
fn healing_records_the_hierarchy() {
    let mut rels = pairs(&[("5", "1")]);
    let mut types = pairs(&[]);
    heal_tables(&mut rels, &mut types, "10", &small_hierarchy());
    assert_eq!(rels, pairs(&[("5", "1"), ("20", "10"), ("11", "10"), ("21", "10")]));
    assert_eq!(types, pairs(&[("10", "game"), ("20", "dlc"), ("11", "depot_base"), ("21", "depot_dlc")]));
}

#[test]
fn install_types_follow_the_list() {
    let mut types = pairs(&[]);
    record_install_types(&mut types, &small_hierarchy(), &strings(&["10", "11"]));
    assert_eq!(types, pairs(&[("11", "depot_base")]));
    record_install_types(&mut types, &small_hierarchy(), &strings(&["20"]));
    assert_eq!(types, pairs(&[("11", "depot_base"), ("20", "dlc"), ("21", "depot_dlc")]));
}

#[test]
fn cached_manifests_need_size_and_magic() {
    let magic = [0xD0u8, 0x17, 0xF6, 0x71];
    assert!(cached_manifest_ok(51, Some(&magic)));
    assert!(!cached_manifest_ok(50, Some(&magic)));
    assert!(!cached_manifest_ok(100, Some(&[0u8, 0, 0, 0])));
    assert!(!cached_manifest_ok(100, None));
    assert!(!head_is_manifest(Some(&magic[..3])));
}

#[test]
fn steamcmd_answer_gives_name_dlcs_and_depots() {
    let root = answer("10", sample_app());
    assert_eq!(raw_name(&root, "10"), Some(s("Space Game")));
    assert_eq!(raw_name(&root, "11"), None);
    assert_eq!(raw_dlc_ids(&root, "10"), strings(&["50", "700", "900", "900"]));
    let english = raw_depots(&root, "10", "english");
    assert_eq!(english.len(), 1);
    assert_eq!(english[0].depot_id, "731");
    assert_eq!(english[0].gid, Some(s("123")));
    assert_eq!(english[0].size, Some(1000));
    assert!(english[0].is_common);
    assert!(!english[0].is_dlc_depot);
    let french = raw_depots(&root, "10", "french");
    assert_eq!(french.len(), 2);
    assert_eq!(french[1].depot_id, "732");
    assert_eq!(french[1].gid, Some(s("456")));
    assert_eq!(french[1].size, Some(2000));
    assert_eq!(french[1].language, Some(s("french")));
    assert!(french[1].is_dlc_depot);
}

#[test]
fn dlc_nodes_by_source() {
    let media = answer("900", obj(vec![("common", obj(vec![("name", text("Original Soundtrack"))]))]));
    let n = dlc_node("900", &DlcSource::Info(media), "english");
    assert_eq!(n.name, "Original Soundtrack");
    assert!(!n.selected);
    let unnamed = dlc_node("901", &DlcSource::Info(answer("901", obj(vec![]))), "english");
    assert_eq!(unnamed.name, "DLC 901");
    assert!(unnamed.selected);
    let store = dlc_node("902", &DlcSource::StoreName(s("Expansion")), "english");
    assert_eq!(store.name, "Expansion");
    assert!(store.selected && store.depots.is_empty());
    let none = dlc_node("903", &DlcSource::Unavailable, "english");
    assert_eq!(none.name, "DLC 903 (Info Unavailable)");
}

#[test]
fn hierarchy_sorts_dlcs_by_id_text() {
    let dlcs = vec![
        dlc_node("900", &DlcSource::Unavailable, "english"),
        dlc_node("1000", &DlcSource::StoreName(s("B")), "english"),
        dlc_node("900", &DlcSource::StoreName(s("Second")), "english"),
    ];
    let h = hierarchy_from("10", &answer("10", sample_app()), "FRENCH", dlcs);
    assert_eq!(h.root_id, "10");
    assert_eq!(h.root_name, "Space Game");
    assert_eq!(h.base_depots.len(), 2);
    let ids: Vec<&str> = h.dlcs.iter().map(|d| d.app_id.as_str()).collect();
    assert_eq!(ids, vec!["1000", "900", "900"]);
    assert_eq!(h.dlcs[1].name, "DLC 900 (Info Unavailable)");
    assert_eq!(h.dlcs[2].name, "Second");
    let unnamed = hierarchy_from("11", &answer("11", obj(vec![])), "english", vec![]);
    assert_eq!(unnamed.root_name, "App 11");
    assert!(sort_nodes_by_id(vec![]).is_empty());
}
