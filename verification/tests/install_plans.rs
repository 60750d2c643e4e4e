use darkcore::api::{DepotNode, DlcNode, GameHierarchy};
use darkcore::commands::steam_install::{
    DlcItem, InstallResult, conflicting_manifests, derived_depot_id, dlc_catalog_for, effective_library,
    mandatory_ids_for, record_relationships, sort_distinct, vault_decision,
};
use darkcore::paths::PathText;

fn s(v: &str) -> String {
    v.to_string()
}

fn strings(v: &[&str]) -> Vec<String> {
    v.iter().map(|x| s(x)).collect()
}

fn pairs(v: &[(&str, &str)]) -> Vec<(String, String)> {
    v.iter().map(|(a, b)| (s(a), s(b))).collect()
}

fn depot(id: &str) -> DepotNode {
    DepotNode { depot_id: s(id), gid: None, size: None, language: None, is_common: true, is_dlc_depot: false }
}

fn dlc(id: &str, name: &str, depots: &[&str]) -> DlcNode {
    DlcNode { app_id: s(id), name: s(name), depots: depots.iter().map(|d| depot(d)).collect(), selected: false }
}

fn hierarchy() -> GameHierarchy {
    GameHierarchy {
        root_id: s("100"),
        root_name: s("Game"),
        base_depots: vec![depot("101"), depot("228980"), depot("102")],
        dlcs: vec![dlc("200", "Season Pass", &["201"]), dlc("300", "Soundtrack", &["301", "228989"])],
    }
}

fn summary(items: &[DlcItem]) -> Vec<(String, String, usize, bool)> {
    items.iter().map(|d| (d.app_id.clone(), d.name.clone(), d.depots_count, d.available)).collect()
}

#[test]
fn installed_report_names_the_game() {
    let r = InstallResult::installed("Portal", 4, 3);
    assert!(r.success);
    assert_eq!(r.message, "Portal installed successfully");
    assert_eq!(r.applist_ids_count, 4);
    assert_eq!(r.keys_injected, 3);
}

#[test]
fn library_falls_back_to_the_steam_folder() {
    assert_eq!(effective_library("C:\\Steam", ""), "C:\\Steam");
    assert_eq!(effective_library("C:\\Steam", "D:\\Games"), "D:\\Games");
}

#[test]
fn other_libraries_hold_conflicting_manifests() {
    let libs = vec![PathText::new("C:\\Steam"), PathText::new("D:\\Lib")];
    let r = conflicting_manifests(&libs, "C:\\Steam", "620");
    assert_eq!(r.len(), 1);
    assert_eq!(r[0].parts, strings(&["D:\\Lib", "steamapps", "appmanifest_620.acf"]));
}

#[test]
fn vault_skips_only_verified_complete_data() {
    let a = vault_decision(true, Some(true), true);
    assert!(a.vault_is_valid && a.skip_download);
    let b = vault_decision(true, None, false);
    assert!(b.vault_is_valid && !b.skip_download);
    let c = vault_decision(true, Some(false), true);
    assert!(!c.vault_is_valid && !c.skip_download);
    let d = vault_decision(false, Some(true), true);
    assert!(!d.vault_is_valid && !d.skip_download);
}

#[test]
fn derived_depot_replaces_the_last_digit() {
    assert_eq!(derived_depot_id("1234560"), "1234561");
    assert_eq!(derived_depot_id("71"), "71");
    assert_eq!(derived_depot_id(""), "");
}

#[test]
fn ids_sort_bytewise_once_each() {
    let r = sort_distinct(&strings(&["999", "1000", "999", "20"]));
    assert_eq!(r, strings(&["1000", "20", "999"]));
}

#[test]
fn list_without_hierarchy_keeps_order() {
    let r = mandatory_ids_for("100", None, &strings(&["105", "100", "105"]));
    assert_eq!(r, strings(&["100", "101", "105"]));
}

#[test]
fn list_with_hierarchy_adds_selected_dlcs_and_skips_redistributables() {
    let h = hierarchy();
    let r = mandatory_ids_for("100", Some(&h), &strings(&["300", "999"]));
    assert_eq!(r, strings(&["100", "101", "102", "300", "301", "999"]));
}

#[test]
fn relationships_point_listed_ids_at_the_root() {
    let mut rel = pairs(&[("5", "1"), ("7", "2")]);
    record_relationships(&mut rel, &strings(&["100", "200", "5"]), "100");
    assert_eq!(rel, pairs(&[("5", "100"), ("7", "2"), ("200", "100")]));
}

#[test]
fn catalog_merges_script_and_store_sorted_by_number() {
    let lua = pairs(&[("300", "DLC 3"), ("50", "Extra"), ("300", "DLC 3 again")]);
    let h = GameHierarchy {
        root_id: s("10"),
        root_name: s("Game"),
        base_depots: vec![],
        dlcs: vec![
            dlc("300", "Deluxe Pack", &["301", "302"]),
            dlc("200", "Art Book", &["201"]),
            dlc("400", "Locked", &["401"]),
            dlc("50", "Official", &[]),
        ],
    };
    let r = dlc_catalog_for(&lua, Some(&h), &strings(&["201"]));
    assert_eq!(
        summary(&r),
        vec![
            (s("50"), s("Extra"), 0, true),
            (s("200"), s("Art Book"), 1, true),
            (s("300"), s("Deluxe Pack"), 2, true),
            (s("400"), s("Locked"), 1, false),
        ]
    );
}

#[test]
fn catalog_without_store_lists_the_script() {
    let lua = pairs(&[("20", "B"), ("abc", "Odd"), ("10", "A")]);
    let r = dlc_catalog_for(&lua, None, &vec![]);
    assert_eq!(
        summary(&r),
        vec![(s("abc"), s("Odd"), 0, true), (s("10"), s("A"), 0, true), (s("20"), s("B"), 0, true)]
    );
}
