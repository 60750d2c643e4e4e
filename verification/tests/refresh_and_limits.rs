use darkcore::api::{DlcSource, fetch_full_hierarchy};
use darkcore::app_list::{APPLIST_LIMIT, limit_reached, slots_left};
use darkcore::api::raw_depots;
use darkcore::json::JsonValue;
use darkcore::json_number::number_as_u64;
use darkcore::watcher::{DepotRefresh, keep_downloaded, trigger_update_download};

fn s(v: &str) -> String {
    v.to_string()
}

fn obj(members: Vec<(&str, JsonValue)>) -> JsonValue {
    JsonValue::Object(members.into_iter().map(|(k, v)| (s(k), v)).collect())
}

fn text(v: &str) -> JsonValue {
    JsonValue::Str(s(v))
}

fn answer(appid: &str, app: JsonValue) -> JsonValue {
    obj(vec![("data", obj(vec![(appid, app)]))])
}

fn magic(extra: &[u8]) -> Vec<u8> {
    let mut v = vec![0xD0u8, 0x17, 0xF6, 0x71];
    v.extend_from_slice(extra);
    v
}

fn depot(gid: Option<&str>) -> DepotRefresh {
    DepotRefresh { gid: gid.map(s), cached: None, vault_head: None, vault_copied: false, downloaded_head: None }
}

#[test]
fn update_download_counts_valid_manifests() {
    let mut kept = depot(Some("1"));
    kept.cached = Some((400, Some(magic(&[1, 2]))));
    let mut small = depot(Some("2"));
    small.cached = Some((50, Some(magic(&[]))));
    let mut from_vault = depot(Some("3"));
    from_vault.vault_head = Some(Some(magic(&[9])));
    from_vault.vault_copied = true;
    let mut bad_download = depot(Some("4"));
    bad_download.downloaded_head = Some(Some(vec![0x50, 0x4B, 0x03, 0x04]));
    let mut good_download = depot(Some("5"));
    good_download.downloaded_head = Some(Some(magic(&[])));
    let mut no_gid = depot(None);
    no_gid.downloaded_head = Some(Some(magic(&[])));
    let all = vec![kept, small, from_vault, bad_download, good_download, no_gid];
    assert_eq!(trigger_update_download(&Ok(all)), Ok(3));
    assert_eq!(trigger_update_download(&Ok(vec![])), Ok(0));
    assert_eq!(trigger_update_download(&Err(s("no app info"))), Err(s("no app info")));
}

#[test]
fn downloaded_manifest_kept_only_with_magic() {
    assert!(keep_downloaded(&Some(magic(&[0]))));
    assert!(!keep_downloaded(&Some(vec![0xD0, 0x17, 0xF6])));
    assert!(!keep_downloaded(&Some(vec![0, 0, 0, 0, 0])));
    assert!(!keep_downloaded(&None));
}

fn sample_root() -> JsonValue {
    answer(
        "10",
        obj(vec![
            ("common", obj(vec![("name", text("Space Game"))])),
            ("extended", obj(vec![("listofdlc", text(" 900, 50 ,,900"))])),
        ]),
    )
}

#[test]
fn full_hierarchy_has_one_node_per_listed_dlc() {
    let root = sample_root();
    let sources = vec![
        DlcSource::Info(answer("50", obj(vec![("common", obj(vec![("name", text("Server Pack"))]))]))),
        DlcSource::StoreName(s("Expansion")),
        DlcSource::Unavailable,
    ];
    let h = fetch_full_hierarchy("10", &root, "English", &sources);
    assert_eq!(h.root_id, "10");
    assert_eq!(h.root_name, "Space Game");
    let ids: Vec<&str> = h.dlcs.iter().map(|d| d.app_id.as_str()).collect();
    assert_eq!(ids, vec!["50", "900", "900"]);
    assert_eq!(h.dlcs[0].name, "Server Pack");
    assert!(!h.dlcs[0].selected);
    let names: Vec<&str> = h.dlcs[1..].iter().map(|d| d.name.as_str()).collect();
    assert!(names.contains(&"Expansion"));
    assert!(names.contains(&"DLC 900 (Info Unavailable)"));
    assert!(h.dlcs.iter().skip(1).all(|d| d.selected));
}

#[test]
fn full_hierarchy_without_dlcs() {
    let root = answer("11", obj(vec![]));
    let h = fetch_full_hierarchy("11", &root, "english", &vec![]);
    assert_eq!(h.root_name, "App 11");
    assert!(h.dlcs.is_empty());
    assert!(h.base_depots.is_empty());
}

#[test]
fn applist_slots() {
    assert_eq!(APPLIST_LIMIT, 130);
    assert_eq!(slots_left(0), 130);
    assert_eq!(slots_left(129), 1);
    assert_eq!(slots_left(130), 0);
    assert_eq!(slots_left(500), 0);
    assert!(!limit_reached(129));
    assert!(limit_reached(130));
    assert!(limit_reached(131));
}

#[test]
fn number_sizes_follow_the_cast() {
    assert_eq!(number_as_u64("2000"), Some(2000));
    assert_eq!(number_as_u64("-5"), Some(0));
    assert_eq!(number_as_u64("-0"), Some(0));
    assert_eq!(number_as_u64("1.9"), Some(1));
    assert_eq!(number_as_u64("0.000"), Some(0));
    assert_eq!(number_as_u64("2.5e3"), Some(2500));
    assert_eq!(number_as_u64("2.5E+3"), Some(2500));
    assert_eq!(number_as_u64("12e-1"), Some(1));
    assert_eq!(number_as_u64("5e-1"), Some(0));
    assert_eq!(number_as_u64("1e400"), Some(u64::MAX));
    assert_eq!(number_as_u64("0e400"), Some(0));
    assert_eq!(number_as_u64("99999999999999999999"), Some(u64::MAX));
    assert_eq!(number_as_u64("-1e400"), Some(0));
    assert_eq!(number_as_u64("abc"), None);
    assert_eq!(number_as_u64("1."), None);
    assert_eq!(number_as_u64(".5"), None);
    assert_eq!(number_as_u64("1e"), None);
    assert_eq!(number_as_u64("1e+"), None);
    assert_eq!(number_as_u64(""), None);
}

#[test]
fn depot_sizes_from_numbers() {
    let depot = |size: JsonValue| {
        obj(vec![("config", obj(vec![])), ("maxsize", size)])
    };
    let root = answer(
        "10",
        obj(vec![(
            "depots",
            obj(vec![
                ("1", depot(JsonValue::Number(s("-3")))),
                ("2", depot(JsonValue::Number(s("1.5e3")))),
                ("3", depot(text("+42"))),
                ("4", depot(text("1.5"))),
            ]),
        )]),
    );
    let ds = raw_depots(&root, "10", "english");
    let sizes: Vec<Option<u64>> = ds.iter().map(|d| d.size).collect();
    assert_eq!(sizes, vec![Some(0), Some(1500), Some(42), None]);
}
