use darkcore::api::SearchResult;
use darkcore::desktop::display_id;
use darkcore::desktop::{
    GameProfile, desktop_install_ids, installed_dlcs, removes_slot, search_name, store_app_name, unknown_entries,
};
use darkcore::json::JsonValue;

fn s(v: &str) -> String {
    v.to_string()
}

fn strings(v: &[&str]) -> Vec<String> {
    v.iter().map(|x| s(x)).collect()
}

fn game(id: &str, name: &str) -> GameProfile {
    GameProfile { app_id: s(id), name: s(name), filename: format!("{}.txt", id) }
}

fn hit(game_id: Option<JsonValue>, app_id: Option<JsonValue>, game_name: Option<&str>, name: Option<&str>) -> SearchResult {
    SearchResult {
        game_id,
        game_name: game_name.map(s),
        app_id,
        name: name.map(s),
        is_free: true,
        tiny_image: None,
        logo: None,
    }
}

#[test]
fn script_ids_with_and_without_dlcs() {
    let lua = format!("addappid(100)\naddappid(101, 1, \"{}\")\naddappid(200)\n", "a".repeat(64));
    assert_eq!(desktop_install_ids("100", true, &lua, None), strings(&["100", "101", "200"]));
    assert_eq!(desktop_install_ids("100", false, &lua, None), strings(&["100"]));
}

#[test]
fn store_fallback_without_script() {
    let dlcs = strings(&["300", "301"]);
    assert_eq!(desktop_install_ids("100", true, "", Some(&dlcs)), strings(&["100", "300", "301"]));
    assert_eq!(desktop_install_ids("100", false, "", Some(&dlcs)), strings(&["100"]));
    assert_eq!(desktop_install_ids("100", true, "", None), strings(&["100"]));
}

#[test]
fn unknown_entries_are_listed_in_order() {
    let games = vec![game("1", "Unknown"), game("2", "Known"), game("3", "Unknown"), game("4", "Unknown App 4")];
    assert_eq!(unknown_entries(&games), strings(&["1", "3"]));
}

#[test]
fn search_name_takes_the_first_result_with_the_id() {
    let results = vec![
        hit(Some(JsonValue::Number(s("7"))), None, Some("Other"), None),
        hit(None, Some(JsonValue::Str(s("42"))), None, Some("Answer")),
        hit(Some(JsonValue::Str(s("42"))), None, Some("Later"), None),
    ];
    assert_eq!(search_name("42", &results), Some(s("Answer")));
    assert_eq!(search_name("7", &results), Some(s("Other")));
    assert_eq!(search_name("8", &results), None);
    let unnamed = vec![hit(Some(JsonValue::Str(s("5"))), None, None, None), hit(Some(JsonValue::Str(s("5"))), None, Some("Five"), None)];
    assert_eq!(search_name("5", &unnamed), None);
}

#[test]
fn store_name_is_read_under_the_id() {
    let root = JsonValue::Object(vec![(
        s("10"),
        JsonValue::Object(vec![(s("data"), JsonValue::Object(vec![(s("name"), JsonValue::Str(s("Ten")))]))]),
    )]);
    assert_eq!(store_app_name(&root, "10"), Some(s("Ten")));
    assert_eq!(store_app_name(&root, "11"), None);
}

#[test]
fn installed_dlcs_keep_listed_ones() {
    let games = vec![game("1", "A"), game("21", "B"), game("23", "C")];
    assert_eq!(installed_dlcs(&strings(&["20", "21", "22", "23"]), &games), strings(&["21", "23"]));
}

#[test]
fn slots_are_removed_by_trimmed_text() {
    let ids = strings(&["5", "6"]);
    assert!(removes_slot(" 5\n", &ids));
    assert!(!removes_slot("7", &ids));
}

#[test]
fn search_hits_are_shown_under_an_id() {
    let t = |v: &str| Some(JsonValue::Str(s(v)));
    assert_eq!(display_id(&hit(t("10"), t("20"), None, None)), "10");
    assert_eq!(display_id(&hit(t(""), Some(JsonValue::Number(s("20"))), None, None)), "20");
    assert_eq!(display_id(&hit(None, None, None, None)), "0");
    assert_eq!(display_id(&hit(Some(JsonValue::Bool(true)), t(""), None, None)), "0");
}
