use darkcore::game_path::{GamePathFinder, VdfValue as PathVdfValue, same_path_text};
use darkcore::paths::PathText;
use darkcore::utils::vdf::{VdfParser, VdfValue};

fn s(v: &str) -> String {
    v.to_string()
}

fn obj(entries: Vec<(&str, VdfValue)>) -> VdfValue {
    VdfValue::Obj(entries.into_iter().map(|(k, v)| (k.to_string(), v)).collect())
}

fn text_of(v: &VdfValue) -> Option<String> {
    v.get_str().map(|x| x.to_string())
}

#[test]
fn parse_reads_nested_objects_and_escapes() {
    let doc = "\"AppState\"\n{\n\t\"appid\"\t\t\"570\"\n\t\"name\"\t\t\"Dota \\\"2\\\"\"\n\t\"Sub\"\n\t{\n\t\t\"k\"\t\t\"v\"\n\t}\n}\n";
    let root = VdfParser::parse(doc).unwrap();
    let app = root.find_key("AppState").unwrap();
    assert_eq!(text_of(app.find_key("appid").unwrap()), Some(s("570")));
    assert_eq!(text_of(app.find_key("name").unwrap()), Some(s("Dota \"2\"")));
    let sub = app.find_key("SUB").unwrap();
    assert_eq!(text_of(sub.find_key("k").unwrap()), Some(s("v")));
    assert!(app.find_key("missing").is_none());
}

#[test]
fn parse_accepts_bare_tokens_and_stray_braces() {
    let root = VdfParser::parse("key value other \"x\" }").unwrap();
    assert_eq!(text_of(root.find_key("key").unwrap()), Some(s("value")));
    assert_eq!(text_of(root.find_key("other").unwrap()), Some(s("x")));
}

#[test]
fn serialize_writes_tabs_and_braces() {
    let root = obj(vec![("a", VdfValue::Str(s("1"))), ("b", obj(vec![("c", VdfValue::Str(s("x y")))]))]);
    let text = VdfParser::serialize(&root);
    assert_eq!(text, "\"a\"\t\t\"1\"\n\"b\"\n{\n\t\"c\"\t\t\"x y\"\n}\n");
    assert_eq!(VdfParser::serialize(&VdfValue::Str(s("x"))), "");
}

#[test]
fn serialize_then_parse_gives_back_the_tree() {
    let root = obj(vec![
        ("InstallConfigStore", obj(vec![("Software", obj(vec![("k", VdfValue::Str(s("v w")))]))])),
        ("second", VdfValue::Str(s("tab\there"))),
    ]);
    let again = VdfParser::parse(&VdfParser::serialize(&root)).unwrap();
    assert_eq!(VdfParser::serialize(&again), VdfParser::serialize(&root));
    let sw = again.find_key("InstallConfigStore").unwrap().find_key("Software").unwrap();
    assert_eq!(text_of(sw.find_key("k").unwrap()), Some(s("v w")));
}

#[test]
fn insert_then_lookup_and_other_keys_unchanged() {
    let mut root = obj(vec![("a", VdfValue::Str(s("1"))), ("b", VdfValue::Str(s("2")))]);
    root.insert_or_update(s("A"), VdfValue::Str(s("3")));
    assert_eq!(text_of(root.find_key("a").unwrap()), Some(s("3")));
    assert_eq!(text_of(root.find_key("b").unwrap()), Some(s("2")));
    root.insert_or_update(s("c"), VdfValue::Str(s("4")));
    assert!(root.has_key("C"));
    assert_eq!(root.get_obj().unwrap().len(), 3);
    let mut leaf = VdfValue::Str(s("x"));
    leaf.insert_or_update(s("k"), VdfValue::Str(s("v")));
    assert_eq!(text_of(&leaf), Some(s("x")));
}

#[test]
fn get_mut_writes_through() {
    let mut root = obj(vec![("depots", obj(vec![]))]);
    if let Some(d) = root.get_mut("DEPOTS") {
        d.insert_or_update(s("10"), VdfValue::Str(s("k")));
    }
    assert_eq!(text_of(root.find_key("depots").unwrap().find_key("10").unwrap()), Some(s("k")));
    assert!(root.get_mut("none").is_none());
}

#[test]
fn ensure_path_creates_missing_objects() {
    let mut root = obj(vec![("Software", obj(vec![]))]);
    {
        let target = root.ensure_path(&["Software", "Valve", "Steam"]).unwrap();
        target.insert_or_update(s("x"), VdfValue::Str(s("y")));
    }
    let steam = root.find_key("Software").unwrap().find_key("Valve").unwrap().find_key("Steam").unwrap();
    assert_eq!(text_of(steam.find_key("x").unwrap()), Some(s("y")));
    let mut blocked = obj(vec![("Software", VdfValue::Str(s("flat")))]);
    assert!(blocked.ensure_path(&["Software", "Valve"]).is_none());
    assert_eq!(text_of(blocked.find_key("Software").unwrap()), Some(s("flat")));
}

#[test]
fn game_path_tree_round_trip() {
    let parsed = GamePathFinder::parse_vdf("\"root\" { \"k\" \"v\" }").unwrap();
    assert!(parsed.has_key("ROOT"));
    let text = GamePathFinder::serialize_vdf(&parsed);
    assert_eq!(text, "\"root\"\n{\n\t\"k\"\t\t\"v\"\n}\n");
    let mut v = PathVdfValue::Obj(vec![]);
    v.insert_or_update(s("a"), PathVdfValue::Str(s("b")));
    assert!(v.has_key("a"));
    assert!(v.ensure_path(&["x", "y"]).is_some());
    assert!(v.get_mut("x").is_some());
}

#[test]
fn library_folders_listing() {
    let doc = r#""libraryfolders"
{
"0"
{
"path"		"C:\\\\Steam"
}
"1"
{
"path"		"\\\\\\\\?\\\\D:\\\\Games"
}
}
"#;
    let parsed = GamePathFinder::parse_vdf(doc).unwrap();
    let paths = GamePathFinder::library_paths_in(&parsed);
    assert_eq!(paths, vec![s("C:\\Steam"), s("D:\\Games")]);
    let folders = GamePathFinder::get_library_folders("C:\\Steam", Some(&parsed));
    assert_eq!(folders.len(), 2);
    assert_eq!(folders[0].parts, vec![s("C:\\Steam")]);
    assert_eq!(folders[1].parts, vec![s("D:\\Games")]);
    let alone = GamePathFinder::get_library_folders("E:\\S", None);
    assert_eq!(alone.len(), 1);
}

#[test]
fn manifest_path_is_in_first_library_that_has_it() {
    let libs = vec![PathText::new("A"), PathText::new("B")];
    let cands = GamePathFinder::manifest_candidates(&libs, "70");
    assert_eq!(cands[1].parts, vec![s("B"), s("steamapps"), s("appmanifest_70.acf")]);
    let found = GamePathFinder::find_manifest_path(&libs, "70", &vec![false, true]).unwrap();
    assert_eq!(found.parts, vec![s("B"), s("steamapps"), s("appmanifest_70.acf")]);
    assert!(GamePathFinder::find_manifest_path(&libs, "70", &vec![false, false]).is_none());
    let dir = GamePathFinder::game_dir(&libs[0], "Game");
    assert_eq!(dir.parts, vec![s("A"), s("steamapps"), s("common"), s("Game")]);
}

#[test]
fn parent_for_depot_from_config() {
    let doc = "\"InstallConfigStore\"{\"Software\"{\"Valve\"{\"Steam\"{\"Apps\"{\"100\"{\"depots\"{\"101\"{}}}\"200\"{\"Depots\"{\"201\"{}}}}}}}}";
    let parsed = GamePathFinder::parse_vdf(doc).unwrap();
    assert_eq!(GamePathFinder::parent_for_depot_in(&parsed, "201"), Some(s("200")));
    assert_eq!(GamePathFinder::parent_for_depot_in(&parsed, "101"), Some(s("100")));
    assert_eq!(GamePathFinder::parent_for_depot_in(&parsed, "999"), None);
}

#[test]
fn manifest_owner_reads_mounted_depots() {
    let acf = "\"AppState\"\n{\n\"appid\"\t\"440\"\n\"MountedDepots\"\n{\n\"441\"\t\"123\"\n}\n}\n";
    assert_eq!(GamePathFinder::manifest_owner_in(acf, "441"), Some(Some(s("440"))));
    assert_eq!(GamePathFinder::manifest_owner_in(acf, "999"), None);
    let no_id = "\"AppState\"{\"MountedDepots\"{\"441\" \"1\"}}";
    assert_eq!(GamePathFinder::manifest_owner_in(no_id, "441"), Some(None));
}

#[test]
fn install_dir_is_the_lazy_capture() {
    let acf = "\"AppState\"\n{\n\t\"installdir\"\t\t\"Half-Life 2\"\n\t\"x\" \"y\"\n}";
    assert_eq!(GamePathFinder::extract_install_dir(acf), Some(s("Half-Life 2")));
    assert_eq!(GamePathFinder::extract_install_dir("\"installdir\"\"x\""), None);
    assert_eq!(GamePathFinder::extract_install_dir("\"installdir\" \"\""), None);
    assert_eq!(GamePathFinder::extract_install_dir("nothing"), None);
}

#[test]
fn paths_compare_by_components() {
    assert!(same_path_text("C:\\Steam", "C:\\Steam\\"));
    assert!(same_path_text("C:\\Steam", "C:/Steam"));
    assert!(same_path_text("C:\\Games\\.\\Steam", "C:\\Games\\\\Steam"));
    assert!(!same_path_text("C:\\Steam", "C:\\steam2"));
    assert!(!same_path_text("\\Steam", "Steam"));
    assert!(!same_path_text("./a", "a"));
}

#[test]
fn library_equal_to_steam_folder_as_a_path_is_dropped() {
    let parsed = PathVdfValue::Obj(vec![(
        s("libraryfolders"),
        PathVdfValue::Obj(vec![
            (s("0"), PathVdfValue::Obj(vec![(s("path"), PathVdfValue::Str(s("C:\\Steam\\")))])),
            (s("1"), PathVdfValue::Obj(vec![(s("path"), PathVdfValue::Str(s("D:\\Lib")))])),
        ]),
    )]);
    let folders = GamePathFinder::get_library_folders("C:\\Steam", Some(&parsed));
    assert_eq!(folders.len(), 2);
    assert_eq!(folders[1].parts, vec![s("D:\\Lib")]);
}
