use seekr::index::{AppIndex, RawEntry};
use seekr::matching::rank;

fn index_of(names: &[&str]) -> AppIndex {
    let raws: Vec<RawEntry> = names
        .iter()
        .map(|n| RawEntry {
            exec_line: format!("{} %u", n.to_lowercase()),
            need_terminal: false,
            icon: None,
            name: n.to_string(),
            description: String::new(),
            path: format!("/apps/{n}.desktop"),
            hidden: false,
        })
        .collect();
    AppIndex::build(raws)
}

fn ranked_names(query: &str, index: &AppIndex) -> Vec<String> {
    rank(query, index).into_iter().map(|e| e.name).collect()
}

#[test]
fn three_records() {
    // all three hold "fi" at offset zero; shorter names rank higher
    let index = index_of(&["Firefox", "Files", "Fine Reader"]);
    let names = ranked_names("fi", &index);
    assert_eq!(names, vec!["Files", "Firefox", "Fine Reader"]);
}

#[test]
fn ranking_is_deterministic() {
    let index = index_of(&["Firefox", "Files", "Fine Reader", "Office"]);
    let first = ranked_names("fi", &index);
    let second = ranked_names("fi", &index);
    assert_eq!(first, second);
}

#[test]
fn substring_matches_precede_subsequence_only_matches() {
    // "fz" occurs in "afz"; in "foz" it only appears as a subsequence
    let index = index_of(&["foz", "afz"]);
    let names = ranked_names("fz", &index);
    assert_eq!(names, vec!["afz", "foz"]);
}

#[test]
fn earlier_offset_ranks_higher() {
    let index = index_of(&["xxfi", "xfixx"]);
    let names = ranked_names("fi", &index);
    assert_eq!(names, vec!["xfixx", "xxfi"]);
}

#[test]
fn matching_ignores_case_and_outer_whitespace() {
    let index = index_of(&["FIREFOX"]);
    assert_eq!(ranked_names("fire", &index), vec!["FIREFOX"]);
    assert_eq!(ranked_names("  Fire  ", &index), vec!["FIREFOX"]);
}

#[test]
fn empty_query_yields_no_matches() {
    let index = index_of(&["Firefox", "Files"]);
    assert!(ranked_names("", &index).is_empty());
    assert!(ranked_names("   ", &index).is_empty());
}

#[test]
fn non_matching_entries_are_left_out() {
    let index = index_of(&["Firefox", "Terminal"]);
    let names = ranked_names("fire", &index);
    assert_eq!(names, vec!["Firefox"]);
}

#[test]
fn equal_names_keep_index_order_and_appear_once() {
    let index = index_of(&["Editor", "Editor"]);
    let names = ranked_names("edit", &index);
    assert_eq!(names, vec!["Editor", "Editor"]);
}
