use darkcore::api::{SearchResult, rank_search_results};

fn hit(game_name: Option<&str>, name: Option<&str>) -> SearchResult {
    SearchResult {
        game_id: None,
        game_name: game_name.map(|s| s.to_string()),
        app_id: None,
        name: name.map(|s| s.to_string()),
        is_free: true,
        tiny_image: None,
        logo: None,
    }
}

fn shown(r: &SearchResult) -> String {
    r.game_name.clone().or(r.name.clone()).unwrap_or_default()
}

#[test]
fn exact_then_prefix_then_shortest() {
    let results = vec![
        hit(Some("Portal 2"), None),
        hit(Some("portal"), None),
        hit(Some("The Portal"), None),
        hit(None, Some("Portal Stories")),
        hit(Some("Portal"), Some("ignored")),
        hit(Some("Half-Life"), None),
    ];
    let ranked = rank_search_results(results, "PORTAL");
    let names: Vec<String> = ranked.iter().map(shown).collect();
    assert_eq!(names, vec!["portal", "Portal", "Portal 2", "Portal Stories", "Half-Life", "The Portal"]);
}

#[test]
fn nameless_results_rank_as_empty_names() {
    let results = vec![hit(Some("b"), None), hit(None, None), hit(Some("a"), None)];
    let ranked = rank_search_results(results, "x");
    let names: Vec<String> = ranked.iter().map(shown).collect();
    assert_eq!(names, vec!["", "a", "b"]);
}

#[test]
fn empty_results_stay_empty() {
    assert!(rank_search_results(vec![], "q").is_empty());
}
