use abs_screens::browse::{
    cut_sections, genre_chips, group_key_for, is_shown, sorted_unique, visible_order, CategoryFilter, Grouping, LibraryData, LibraryView, SortBy, SortKey,
};
use abs_screens::double::Double;
use abs_screens::models::{find_progress, is_listed, Item, Progress, Timestamp};

fn item(id: &str, title: &str, author: Option<&str>, added: (i64, u32), duration: f64) -> Item {
    Item {
        id: id.to_string(),
        title: title.to_string(),
        author: author.map(|a| a.to_string()),
        narrator: None,
        description: None,
        series_name: None,
        genres: Vec::new(),
        duration: Double { bits: duration.to_bits() },
        added_at: Timestamp { seconds: added.0, nanos: added.1 },
        cover_path: None,
        search_title: title.to_lowercase(),
        search_author: author.map(|a| a.to_lowercase()),
    }
}

fn view(sort: SortKey, grouping: Grouping) -> LibraryView {
    LibraryView {
        query: String::new(),
        offline: false,
        in_progress_only: false,
        hide_finished: false,
        category: CategoryFilter::All,
        sort,
        grouping,
    }
}

fn data(items: Vec<Item>) -> LibraryData {
    LibraryData { items, downloaded: Vec::new(), last_listened: Vec::new() }
}

fn progress(id: &str, finished: bool, updated: i64) -> Progress {
    Progress { item_id: id.to_string(), current_time: Double { bits: 0 }, is_finished: finished, updated_at: Timestamp { seconds: updated, nanos: 0 } }
}

#[test]
fn sort_keys_and_their_stored_form_correspond() {
    let pairs = [
        (SortKey::DateAdded, SortBy::DateOfCreation),
        (SortKey::Title, SortBy::Title),
        (SortKey::Author, SortBy::Author),
        (SortKey::Duration, SortBy::Duration),
        (SortKey::LastListened, SortBy::LastListened),
    ];
    for (key, stored) in pairs {
        assert_eq!(key.to_sort_by(), stored);
        assert_eq!(SortKey::from_sort_by(stored), key);
    }
}

#[test]
fn equal_keys_keep_the_loaded_order() {
    let d = data(vec![item("1", "b", None, (5, 0), 1.0), item("2", "B", None, (5, 0), 1.0), item("3", "a", None, (5, 1), 1.0)]);
    assert_eq!(visible_order(&d, &view(SortKey::Title, Grouping::Ungrouped)), vec![2, 0, 1]);
    assert_eq!(visible_order(&d, &view(SortKey::DateAdded, Grouping::Ungrouped)), vec![2, 0, 1]);
    assert_eq!(visible_order(&d, &view(SortKey::Duration, Grouping::Ungrouped)), vec![0, 1, 2]);
}

#[test]
fn durations_are_ordered_totally() {
    let d = data(vec![item("1", "", None, (0, 0), f64::NAN), item("2", "", None, (0, 0), -0.0), item("3", "", None, (0, 0), 0.0), item("4", "", None, (0, 0), 1e300)]);
    assert_eq!(visible_order(&d, &view(SortKey::Duration, Grouping::Ungrouped)), vec![0, 3, 2, 1]);
}

#[test]
fn orders_titles_as_lower_case_strings_compare() {
    let words = ["Zürich", "zulu", "ÉCLAIR", "eclair", "", "A", "a b", "\u{10000}x", "\u{ffee}x", "İstanbul", "STRASSE", "straße"];
    let d = data(words.iter().map(|w| item(w, w, None, (0, 0), 0.0)).collect());
    let mut expected: Vec<usize> = (0..words.len()).collect();
    expected.sort_by_key(|i| words[*i].to_lowercase());
    assert_eq!(visible_order(&d, &view(SortKey::Title, Grouping::Ungrouped)), expected);
}

#[test]
fn sections_hold_every_shown_item_once_in_the_chosen_order() {
    let d = data(vec![
        item("1", "c", Some("Zoe"), (1, 0), 1.0),
        item("2", "b", Some("adam"), (2, 0), 1.0),
        item("3", "a", None, (3, 0), 1.0),
        item("4", "d", Some("adam"), (4, 0), 1.0),
        item("5", "e", Some("Zoe"), (5, 0), 1.0),
    ]);
    let v = view(SortKey::Title, Grouping::ByAuthor);
    let list = visible_order(&d, &v);
    assert_eq!(list, vec![1, 3, 0, 4, 2]);
    let sections = cut_sections(&d, v.grouping, &list);
    let labels: Vec<&str> = sections.iter().map(|s| s.key.label()).collect();
    assert_eq!(labels, vec!["adam", "Zoe", "Unknown author"]);
    assert_eq!(sections[0].positions, vec![1, 3]);
    assert!(sections[2].key.is_fallback());
    let one = cut_sections(&d, Grouping::Ungrouped, &list);
    assert_eq!(one.len(), 1);
    assert_eq!(one[0].positions, list);
    assert!(cut_sections(&d, Grouping::Ungrouped, &Vec::new()).is_empty());
}

#[test]
fn names_that_differ_in_case_have_one_heading_each() {
    let d = data(vec![item("1", "a", Some("bob"), (0, 0), 0.0), item("2", "b", Some("Bob"), (0, 0), 0.0), item("3", "c", Some("bob"), (0, 0), 0.0), item("4", "d", Some("bo"), (0, 0), 0.0)]);
    let v = view(SortKey::DateAdded, Grouping::ByAuthor);
    let list = visible_order(&d, &v);
    assert_eq!(list, vec![3, 1, 0, 2]);
    let sections = cut_sections(&d, v.grouping, &list);
    let labels: Vec<&str> = sections.iter().map(|s| s.key.label()).collect();
    assert_eq!(labels, vec!["bo", "Bob", "bob"]);
    assert_eq!(sections[2].positions, vec![0, 2]);
}

#[test]
fn a_real_name_is_not_taken_for_the_fallback() {
    let named = item("1", "a", Some("Unknown author"), (0, 0), 0.0);
    let unnamed = item("2", "b", None, (0, 0), 0.0);
    let a = group_key_for(&named, Grouping::ByAuthor);
    let b = group_key_for(&unnamed, Grouping::ByAuthor);
    assert_eq!(a.label(), b.label());
    assert!(!a.is_fallback() && b.is_fallback());
    assert!(!a.same(&b) && a.same(&a) && b.same(&b));
}

#[test]
fn filters_are_applied_together() {
    let mut d = data(vec![item("1", "One", Some("Ann"), (0, 0), 0.0), item("2", "Two", Some("Ben"), (0, 0), 0.0)]);
    d.downloaded = vec!["1".to_string()];
    d.last_listened = vec![progress("1", false, 1), progress("2", true, 2)];
    let mut v = view(SortKey::DateAdded, Grouping::Ungrouped);
    assert!(is_shown(&d, &v, &d.items[0]) && is_shown(&d, &v, &d.items[1]));
    v.offline = true;
    assert!(is_shown(&d, &v, &d.items[0]) && !is_shown(&d, &v, &d.items[1]));
    v.offline = false;
    v.in_progress_only = true;
    assert!(is_shown(&d, &v, &d.items[0]) && !is_shown(&d, &v, &d.items[1]));
    v.in_progress_only = false;
    v.hide_finished = true;
    assert!(is_shown(&d, &v, &d.items[0]) && !is_shown(&d, &v, &d.items[1]));
    v.query = "be".to_string();
    assert!(!is_shown(&d, &v, &d.items[0]));
    v.hide_finished = false;
    assert!(is_shown(&d, &v, &d.items[1]));
}

#[test]
fn the_last_row_of_an_item_counts() {
    let rows = vec![progress("1", false, 1), progress("2", false, 2), progress("1", true, 3)];
    assert!(find_progress(&rows, &"1".to_string()).unwrap().is_finished);
    assert!(find_progress(&rows, &"3".to_string()).is_none());
    assert!(is_listed(&vec!["a".to_string(), "b".to_string()], &"b".to_string()));
    assert!(!is_listed(&vec!["a".to_string()], &"b".to_string()));
}

#[test]
fn genres_are_listed_once_in_order() {
    let mut a = item("1", "a", None, (0, 0), 0.0);
    a.genres = vec!["Sci-Fi".to_string(), "Fantasy".to_string()];
    let mut b = item("2", "b", None, (0, 0), 0.0);
    b.genres = vec!["fantasy".to_string(), "Fantasy".to_string(), "Éa".to_string()];
    assert_eq!(genre_chips(&vec![a, b]), vec!["Fantasy", "Sci-Fi", "fantasy", "Éa"]);
    assert!(genre_chips(&Vec::new()).is_empty());
    assert_eq!(sorted_unique(&vec!["b".to_string(), "a".to_string(), "b".to_string()]), vec!["a", "b"]);
}
