use darkcore::app_list::{AppListManager, string_map_from_json};
use darkcore::vdf_injector::{TextInjectError, inject_keys_text, remove_keys_text};
use darkcore::watcher::{AcfStatus, scan_update_needed};

fn s(v: &str) -> String {
    v.to_string()
}

const CFG: &str = "\"InstallConfigStore\"\n{\n\t\"Software\"\n\t{\n\t\t\"Valve\"\n\t\t{\n\t\t\t\"Steam\"\n\t\t\t{\n\t\t\t\t\"depots\"\n\t\t\t\t{\n\t\t\t\t\t\"11\"\n\t\t\t\t\t{\n\t\t\t\t\t\t\"DecryptionKey\"\t\t\"aa\"\n\t\t\t\t\t}\n\t\t\t\t}\n\t\t\t\t\"x\"\t\t\"keep\"\n\t\t\t}\n\t\t}\n\t}\n}\n";

#[test]
fn existing_key_is_replaced_in_place_and_new_one_inserted() {
    let keys = vec![(s("11"), s("bb")), (s("12"), s("cc"))];
    let (out, n) = inject_keys_text(CFG, &keys).unwrap();
    assert_eq!(n, 2);
    let expected = CFG
        .replace("\"DecryptionKey\"\t\t\"aa\"", "\"DecryptionKey\"\t\t\"bb\"")
        .replace(
            "\t\t\t\t\"depots\"\n\t\t\t\t{\n",
            "\t\t\t\t\"depots\"\n\t\t\t\t{\n\t\t\t\t\t\"12\"\n\t\t\t\t\t{\n\t\t\t\t\t\t\"DecryptionKey\"\t\t\"cc\"\n\t\t\t\t\t}\n",
        );
    assert_eq!(out, expected);
}

#[test]
fn depots_section_is_added_under_steam() {
    let cfg = "\"Steam\"\n{\n\t\"x\" \"1\"\n}\n";
    let (out, n) = inject_keys_text(cfg, &vec![(s("5"), s("ff"))]).unwrap();
    assert_eq!(n, 1);
    assert_eq!(
        out,
        "\"Steam\"\n{\n\t\t\t\t\"depots\"\n\t\t\t\t{\n\t\t\t\t\t\"5\"\n\t\t\t\t\t{\n\t\t\t\t\t\t\"DecryptionKey\"\t\t\"ff\"\n\t\t\t\t\t}\n\t\t\t\t}\n\t\"x\" \"1\"\n}\n"
    );
}

#[test]
fn no_section_is_an_error_and_no_keys_change_nothing() {
    assert_eq!(inject_keys_text("\"Other\"\n{\n}\n", &vec![(s("5"), s("ff"))]), Err(TextInjectError::MissingSteamSection));
    assert_eq!(inject_keys_text("junk", &vec![]), Ok((s("junk"), 0)));
}

#[test]
fn key_blocks_are_removed_whole() {
    let (out, n) = remove_keys_text(CFG, &vec![s("11"), s("99")]);
    assert_eq!(n, 1);
    assert_eq!(out, CFG.replace("\t\t\t\t\t\"11\"\n\t\t\t\t\t{\n\t\t\t\t\t\t\"DecryptionKey\"\t\t\"aa\"\n\t\t\t\t\t}\n", ""));
}

#[test]
fn removing_a_just_injected_key_gives_the_text_back() {
    let (out, n) = inject_keys_text(CFG, &vec![(s("480"), s("0fA9"))]).unwrap();
    assert_eq!(n, 1);
    assert_ne!(out, CFG);
    let (back, removed) = remove_keys_text(&out, &vec![s("480")]);
    assert_eq!(removed, 1);
    assert_eq!(back, CFG);
}

#[test]
fn removing_several_just_injected_keys_gives_the_text_back() {
    let keys = vec![(s("480"), s("0fA9")), (s("481"), s("12")), (s("4800"), s("beef"))];
    let (out, n) = inject_keys_text(CFG, &keys).unwrap();
    assert_eq!(n, 3);
    let (back, removed) = remove_keys_text(&out, &vec![s("480"), s("481"), s("4800")]);
    assert_eq!(removed, 3);
    assert_eq!(back, CFG);
}

#[test]
fn string_tables_read_from_json() {
    let mut t = string_map_from_json("{\"b\": \"2\", \"a\": \"1\"}").unwrap();
    t.sort();
    assert_eq!(t, vec![(s("a"), s("1")), (s("b"), s("2"))]);
    assert!(string_map_from_json("{\"a\": 1}").is_none());
    assert!(string_map_from_json("[\"a\"]").is_none());
}

#[test]
fn relationship_table_prefers_the_local_file() {
    let m = AppListManager::new("GL", "S");
    let (t, copy) = m.load_relationships(Some("{\"20\": \"10\"}"), Some("{\"30\": \"10\"}"), false);
    assert_eq!(t, vec![(s("20"), s("10"))]);
    assert!(copy);
    let (t, copy) = m.load_relationships(Some("not json"), Some("{\"30\": \"10\"}"), true);
    assert_eq!(t, vec![(s("30"), s("10"))]);
    assert!(!copy);
    let (t, copy) = m.load_relationships(None, None, false);
    assert!(t.is_empty() && !copy);
    assert_eq!(m.load_types(None, Some("{\"1\": \"dlc\"}")), vec![(s("1"), s("dlc"))]);
}

#[test]
fn scan_verdict_ignores_install_state() {
    let flagged = AcfStatus { found: true, content: Some(s("\"buildid\" \"10\" \"StateFlags\" \"1026\"")) };
    assert_eq!(scan_update_needed(10, &flagged, None, &vec![]), (10, false));
    assert_eq!(scan_update_needed(11, &flagged, None, &vec![]), (10, true));
    let missing = AcfStatus { found: false, content: None };
    let cache = vec![s("7_1.manifest")];
    assert_eq!(scan_update_needed(5, &missing, Some(&cache), &vec![(s("7"), Some(s("2")))]), (0, true));
    assert_eq!(scan_update_needed(5, &missing, Some(&cache), &vec![(s("7"), Some(s("1")))]), (0, false));
}
