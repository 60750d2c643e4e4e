use std::io::Write;

use darkcore::api::{
    DepotInfo, DepotNode, DlcNode, GameHierarchy, SteamCmdInfo, extract_gids_from_zip, game_details, manifest_meta_url,
    public_gids, store_dlc_ids, store_parent, store_search_results, val_to_string, with_api_key,
};
use darkcore::app_list::GameProfile;
use darkcore::commands::import::{import_depot, import_list_ids, import_message};
use darkcore::commands::install::{godmode_ids, install_path, install_url, manifest_target, resolve_install_ids};
use darkcore::commands::library::{
    backup_names, children_of, delete_targets, injection_message, legacy_ids, merge_keys, record_repair_links,
    remove_keys, repair_candidates, repair_message, unknown_names,
};
use darkcore::commands::search::{get_cover_url, search_error_message};
use darkcore::commands::system::{clean_start, greenluma_actions, greenluma_files, proxy_dlls};
use darkcore::json::JsonValue;
use darkcore::utils::vdf::VdfParser;
use darkcore::utils::{get_all_library_folders, inject_keys_into_config};

fn s(v: &str) -> String {
    v.to_string()
}

fn strings(v: &[&str]) -> Vec<String> {
    v.iter().map(|x| s(x)).collect()
}

fn pairs(v: &[(&str, &str)]) -> Vec<(String, String)> {
    v.iter().map(|(a, b)| (s(a), s(b))).collect()
}

fn game(id: &str, name: &str, parent: Option<&str>, installed: bool) -> GameProfile {
    GameProfile {
        app_id: s(id),
        name: s(name),
        filename: s("0.txt"),
        parent_id: parent.map(s),
        item_type: s("game"),
        is_installed: installed,
        injection_status: s("injected"),
        pending_update: None,
    }
}

fn obj(members: Vec<(&str, JsonValue)>) -> JsonValue {
    JsonValue::Object(members.into_iter().map(|(k, v)| (s(k), v)).collect())
}

fn text(v: &str) -> JsonValue {
    JsonValue::Str(s(v))
}

fn num(v: &str) -> JsonValue {
    JsonValue::Number(s(v))
}

fn depot(id: &str) -> DepotNode {
    DepotNode { depot_id: s(id), gid: None, size: None, language: None, is_common: true, is_dlc_depot: false }
}

fn hierarchy() -> GameHierarchy {
    GameHierarchy {
        root_id: s("10"),
        root_name: s("Game"),
        base_depots: vec![depot("11"), depot("10"), depot("228980")],
        dlcs: vec![
            DlcNode { app_id: s("20"), name: s("A"), depots: vec![depot("21")], selected: true },
            DlcNode { app_id: s("30"), name: s("B"), depots: vec![depot("31"), depot("228989")], selected: true },
        ],
    }
}

fn zip_of(files: &[(&str, &[u8])]) -> Vec<u8> {
    let mut buf = std::io::Cursor::new(Vec::new());
    {
        let mut w = zip::ZipWriter::new(&mut buf);
        for (name, data) in files {
            w.start_file(*name, zip::write::SimpleFileOptions::default()).unwrap();
            w.write_all(data).unwrap();
        }
        w.finish().unwrap();
    }
    buf.into_inner()
}

#[test]
fn placeholder_names_are_looked_up() {
    let games = vec![
        game("1", "Unknown", None, true),
        game("2", "Unknown App 2", None, true),
        game("3", "Real Game", None, true),
        game("4", "Pack (Content)", None, true),
        game("5", "AppID 5", None, true),
        game("6", "Depot (6)", None, true),
    ];
    assert_eq!(unknown_names(&games), strings(&["1", "2", "4", "5", "6"]));
}

#[test]
fn children_are_listed_with_names() {
    let games = vec![game("10", "G", None, true), game("11", "D", Some("10"), true), game("12", "E", Some("99"), true)];
    assert_eq!(children_of(&games, "10"), pairs(&[("11", "D")]));
}

#[test]
fn repair_looks_at_installed_or_numeric_roots() {
    let games = vec![
        game("200", "A", None, false),
        game("abc", "B", None, true),
        game("xyz", "C", None, false),
        game("100", "D", Some("5"), true),
        game("200", "A", None, false),
    ];
    assert_eq!(repair_candidates(&games), strings(&["200", "abc"]));
}

#[test]
fn repair_links_dlcs_and_depots_to_the_root() {
    let mut rels = pairs(&[("21", "99")]);
    record_repair_links(&mut rels, &hierarchy());
    assert_eq!(rels, pairs(&[("21", "10"), ("11", "10"), ("228980", "10"), ("20", "10"), ("30", "10"), ("31", "10"), ("228989", "10")]));
    assert_eq!(repair_message(2, 3, true), "Repaired relationships for 2 games. Added 3 links.");
    assert_eq!(repair_message(4, 0, false), "Scanned 4 games, no new relationships found.");
}

#[test]
fn legacy_list_names_give_ids() {
    let names = strings(&["10.txt", "notes.txt", "20.txt.txt", "30.dat", "a1.txt"]);
    assert_eq!(legacy_ids(&names), strings(&["10", "20", "a1"]));
}

#[test]
fn deleting_takes_children_and_their_manifests() {
    let rels = pairs(&[("11", "10"), ("12", "10"), ("21", "20")]);
    let targets = delete_targets(&rels, "10");
    assert_eq!(targets, strings(&["10", "11", "12"]));
    let cache = strings(&["11_5.manifest", "110_5.manifest", "10_1.manifest", "12_3.txt", "21_4.manifest"]);
    assert_eq!(backup_names(&cache, &targets), strings(&["10_1.manifest", "11_5.manifest"]));
    let mut types = pairs(&[("10", "game"), ("11", "dlc"), ("21", "depot")]);
    assert!(remove_keys(&mut types, &targets));
    assert_eq!(types, pairs(&[("21", "depot")]));
    assert!(!remove_keys(&mut types, &targets));
}

#[test]
fn script_keys_merge_with_later_scripts_winning() {
    let merged = merge_keys(&vec![pairs(&[("1", "a"), ("2", "b")]), pairs(&[("2", "c"), ("3", "d")])]);
    assert_eq!(merged, pairs(&[("1", "a"), ("2", "c"), ("3", "d")]));
    assert_eq!(injection_message(2, true, 3), "Injected 3 keys from 2 scripts.");
    assert_eq!(injection_message(2, false, 0), "Scanned 2 scripts, no keys found.");
}

#[test]
fn imports_read_depots_from_manifest_names() {
    assert_eq!(import_depot("depotcache/731_99.manifest"), Some(731));
    assert_eq!(import_depot("x_99.manifest"), None);
    assert_eq!(import_depot("732.manifest"), None);
    assert_eq!(import_list_ids(10, &vec![11, 12]), strings(&["10", "11", "12"]));
    assert_eq!(import_message(true, 3, 10, 0), "Added 3 games to AppList, Injected Keys, and triggered Steam install for 10");
    assert_eq!(import_message(false, 3, 10, 2), "Imported successfully. Added 3 IDs to AppList. Injected Keys. Extracted 2 manifests.");
}

#[test]
fn install_ids_and_places() {
    assert_eq!(resolve_install_ids(&hierarchy(), &strings(&["30"])), strings(&["10", "11", "30", "31"]));
    assert_eq!(godmode_ids("10", Some(&strings(&["11"]))), strings(&["10", "11"]));
    assert_eq!(godmode_ids("10", None), strings(&["10"]));
    assert_eq!(install_path("D:\\Lib", "Game").parts, strings(&["D:\\Lib", "steamapps", "common", "Game"]));
    assert_eq!(manifest_target("C:\\Steam", ".").parts, strings(&["C:\\Steam", "depotcache"]));
    assert_eq!(manifest_target("C:\\Steam", "").parts, strings(&["C:\\Steam", "depotcache"]));
    assert_eq!(manifest_target("C:\\Steam", "E:\\out").parts, strings(&["E:\\out"]));
    assert_eq!(install_url("10"), "steam://install/10");
}

#[test]
fn search_errors_are_classified() {
    assert_eq!(search_error_message("HTTP 401 Unauthorized"), "INVALID_KEY: Your API key is invalid or expired. Check Settings.");
    assert_eq!(search_error_message("Too Many Requests"), "RATE_LIMIT: Rate limit exceeded. Please wait a moment.");
    assert_eq!(search_error_message("DNS error"), "NETWORK_ERROR: Could not reach the server. Check your connection.");
    assert_eq!(search_error_message("boom"), "SEARCH_ERROR: boom");
    assert_eq!(get_cover_url("10"), "https://cdn.cloudflare.steamstatic.com/steam/apps/10/header.jpg");
}

#[test]
fn clean_start_is_refused_with_proxies() {
    assert_eq!(proxy_dlls().len(), 5);
    assert_eq!(clean_start(&vec![false; 5]), Ok(()));
    assert_eq!(
        clean_start(&vec![true, false, false, true, false]),
        Err(s("Clean Launch Impossible: GreenLuma proxy DLLs found in Steam folder ([\"user32.dll\", \"winhttp.dll\"]). Please remove them or use Stealth Mode."))
    );
    let a = greenluma_actions(false, true, false);
    assert!(a.create_no_question && !a.create_stealth && a.remove_stealth);
    let b = greenluma_actions(true, false, true);
    assert!(!b.create_no_question && b.create_stealth && !b.remove_stealth);
    let (nq, st, dll) = greenluma_files("G");
    assert_eq!(nq.parts, strings(&["G", "NoQuestion.bin"]));
    assert_eq!(st.parts, strings(&["G", "StealthMode.bin"]));
    assert_eq!(dll.parts, strings(&["G", "GreenLuma_2025_x64.dll"]));
}

#[test]
fn store_answers_are_read() {
    let search = obj(vec![(
        "items",
        JsonValue::Array(vec![
            obj(vec![("id", num("10")), ("name", text("Paid")), ("price", obj(vec![("final", num("999"))])), ("tiny_image", text("t.jpg"))]),
            obj(vec![("id", num("11")), ("name", text("Free")), ("price", obj(vec![("final", num("0"))]))]),
            obj(vec![("id", text("12")), ("name", text("NoPrice"))]),
        ]),
    )]);
    let hits = store_search_results(&search);
    assert_eq!(hits.len(), 3);
    assert!(!hits[0].is_free);
    assert!(hits[1].is_free && hits[2].is_free);
    assert_eq!(hits[0].name, Some(s("Paid")));
    assert_eq!(hits[0].tiny_image, Some(s("t.jpg")));
    assert_eq!(val_to_string(hits[0].app_id.as_ref()), "10");
    assert_eq!(val_to_string(hits[2].game_id.as_ref()), "12");
    assert_eq!(val_to_string(None), "");

    let dlcs = obj(vec![("10", obj(vec![("success", JsonValue::Bool(true)), ("data", obj(vec![("dlc", JsonValue::Array(vec![num("11"), text("x"), num("12")]))]))]))]);
    assert_eq!(store_dlc_ids(&dlcs, "10"), strings(&["11", "12"]));
    let failed = obj(vec![("10", obj(vec![("success", JsonValue::Bool(false))]))]);
    assert!(store_dlc_ids(&failed, "10").is_empty());

    let parent = obj(vec![("20", obj(vec![("success", JsonValue::Bool(true)), ("data", obj(vec![("type", text("dlc")), ("fullgame", obj(vec![("appid", text("10"))]))]))]))]);
    assert_eq!(store_parent(&parent, "20"), Some(s("10")));
    assert_eq!(store_parent(&dlcs, "10"), None);
}

#[test]
fn store_details_fill_defaults() {
    let root = obj(vec![(
        "10",
        obj(vec![(
            "data",
            obj(vec![
                ("name", text("Game")),
                ("developers", JsonValue::Array(vec![text("Dev"), num("1")])),
                ("genres", JsonValue::Array(vec![obj(vec![("description", text("Action"))]), obj(vec![])])),
                ("release_date", obj(vec![("date", text("1 Jan, 2020"))])),
                ("metacritic", obj(vec![("score", num("4294967386"))])),
                ("recommendations", obj(vec![("total", num("55"))])),
                ("platforms", obj(vec![("windows", JsonValue::Bool(true)), ("linux", JsonValue::Bool(false))])),
                ("required_age", num("300")),
            ]),
        )]),
    )]);
    let g = game_details(&root, "10").unwrap();
    assert_eq!(g.app_id, "10");
    assert_eq!(g.name, "Game");
    assert_eq!(g.short_description, "");
    assert_eq!(g.developers, strings(&["Dev"]));
    assert!(g.publishers.is_empty());
    assert_eq!(g.genres, strings(&["Action"]));
    assert_eq!(g.release_date, "1 Jan, 2020");
    assert_eq!(g.metacritic_score, Some(90));
    assert_eq!(g.recommendations, Some(55));
    assert_eq!(g.platforms, (true, false, false));
    assert_eq!(g.required_age, 44);
    assert!(game_details(&root, "11").is_none());
}

#[test]
fn manifest_ids_come_from_archive_names_and_answers() {
    let z = zip_of(&[("depotcache/731_99.manifest", b"x"), ("732_a_b.manifest", b"y"), ("nounderscore.manifest", b"z"), ("733_5.txt", b"w")]);
    assert_eq!(extract_gids_from_zip(z), pairs(&[("731", "99"), ("732_a", "b")]));
    assert!(extract_gids_from_zip(b"no archive".to_vec()).is_empty());
    let info = SteamCmdInfo {
        name: None,
        buildid: None,
        depots: vec![
            (s("1"), DepotInfo { gid: Some(s("7")), language: None }),
            (s("2"), DepotInfo { gid: None, language: None }),
        ],
        dlcs: vec![],
    };
    assert_eq!(public_gids(&info), pairs(&[("1", "7")]));
    assert_eq!(with_api_key("http://x/y", "K"), "http://x/y?api_key=K");
    assert_eq!(with_api_key("http://x/y?a=1", "K"), "http://x/y?a=1&api_key=K");
    assert_eq!(manifest_meta_url("10", "K"), "https://manifest.morrenus.xyz/api/v1/manifest/10?api_key=K");
}

#[test]
fn library_folders_and_config_keys() {
    let lf = VdfParser::parse("\"libraryfolders\"\n{\n\t\"0\"\n\t{\n\t\t\"path\"\t\t\"C:\\\\Steam\"\n\t}\n\t\"1\"\n\t{\n\t\t\"path\"\t\t\"D:\\\\Games\"\n\t\t\"path\"\t\t\"E:\\\\Other\"\n\t}\n}\n").unwrap();
    let folders = get_all_library_folders("C:\\Steam", Some(&lf));
    let parts: Vec<Vec<String>> = folders.iter().map(|p| p.parts.clone()).collect();
    assert_eq!(parts, vec![strings(&["C:\\Steam"]), strings(&["D:\\Games"])]);
    assert_eq!(get_all_library_folders("C:\\Steam", None).len(), 1);

    let cfg = "\"InstallConfigStore\"\n{\n\t\"Software\"\n\t{\n\t\t\"Valve\"\n\t\t{\n\t\t\t\"Steam\"\n\t\t\t{\n\t\t\t}\n\t\t}\n\t}\n}\n";
    let out = inject_keys_into_config(cfg, &vec![(731, s("abcd"))]).ok().unwrap();
    let doc = VdfParser::parse(&out).unwrap();
    let key = doc.find_key("InstallConfigStore").unwrap().find_key("Software").unwrap().find_key("Valve").unwrap()
        .find_key("Steam").unwrap().find_key("depots").unwrap().find_key("731").unwrap().find_key("DecryptionKey").unwrap();
    assert_eq!(key.get_str(), Some("abcd"));
    assert!(inject_keys_into_config("\"Other\" { }", &vec![]).is_err());
}
