use abs_screens::browse::{CategoryFilter, Grouping, LibraryData, SortBy, SortKey};
use abs_screens::double::Double;
use abs_screens::library::{build, Chip, LibraryScreen, LibraryViewMode, StatusTitle};
use abs_screens::models::{play_request, Item, Progress, Timestamp};
use abs_screens::sync::{Cycle, CycleAction, CycleEvent, Stage, SyncOutcome};

fn at(seconds: i64) -> Timestamp {
    Timestamp { seconds, nanos: 0 }
}

fn item(id: &str, title: &str, author: Option<&str>, added: i64, duration: f64) -> Item {
    Item {
        id: id.to_string(),
        title: title.to_string(),
        author: author.map(|a| a.to_string()),
        narrator: None,
        description: None,
        series_name: None,
        genres: Vec::new(),
        duration: Double { bits: duration.to_bits() },
        added_at: at(added),
        cover_path: None,
        search_title: title.to_lowercase(),
        search_author: author.map(|a| a.to_lowercase()),
    }
}

fn with(id: &str, title: &str, series: Option<&str>, genres: &[&str]) -> Item {
    let mut i = item(id, title, Some("Author"), 1_700_000_000, 3600.0);
    i.series_name = series.map(|s| s.to_string());
    i.genres = genres.iter().map(|g| g.to_string()).collect();
    i
}

fn progress(id: &str, finished: bool, updated: i64) -> Progress {
    Progress {
        item_id: id.to_string(),
        current_time: Double { bits: 600.0f64.to_bits() },
        is_finished: finished,
        updated_at: at(updated),
    }
}

fn data(items: Vec<Item>) -> LibraryData {
    LibraryData { items, downloaded: Vec::new(), last_listened: Vec::new() }
}

fn opened(items: Vec<Item>) -> LibraryScreen {
    build().loaded(Some(data(items)))
}

fn titles(screen: &LibraryScreen) -> Vec<String> {
    let mut v = Vec::new();
    for section in &screen.sections {
        for position in &section.positions {
            v.push(screen.tile(*position).title);
        }
    }
    v
}

fn entries(screen: &LibraryScreen) -> Vec<String> {
    let mut v = Vec::new();
    for section in &screen.sections {
        if let Some(heading) = screen.heading(section) {
            v.push(format!("§{heading}"));
        }
        for position in &section.positions {
            v.push(screen.tile(*position).title);
        }
    }
    v
}

fn two_books() -> Vec<Item> {
    vec![
        item("item-1", "Zed Book", Some("Author A"), 1_700_000_000, 3600.0),
        item("item-2", "Alpha Book", Some("Author B"), 1_600_000_000, 7200.0),
    ]
}

#[test]
fn all_loaded_items_are_shown() {
    let screen = opened(vec![
        item("item-1", "Project Hail Mary", Some("Andy Weir"), 1_700_000_000, 3600.0),
        item("item-2", "The Martian", Some("Andy Weir"), 1_600_000_000, 7200.0),
        item("item-3", "Radiolab Ep 1", Some("WNYC"), 1_650_000_000, 1800.0),
    ]);
    assert!(!screen.status_visible);
    assert_eq!(titles(&screen), vec!["Project Hail Mary", "Radiolab Ep 1", "The Martian"]);
    assert_eq!(entries(&screen).len(), 3);
}

#[test]
fn search_filters_by_title_and_author_once_it_settles() {
    let screen = opened(vec![
        item("item-1", "Project Hail Mary", Some("Andy Weir"), 1_700_000_000, 3600.0),
        item("item-2", "Dune", Some("Frank Herbert"), 1_600_000_000, 7200.0),
    ]);
    let screen = screen.search_typed("weir".to_string());
    assert_eq!(titles(&screen).len(), 2);
    assert!(!screen.busy);
    let screen = screen.search_settled();
    assert!(screen.busy);
    let screen = screen.idle();
    assert!(!screen.busy);
    assert_eq!(titles(&screen), vec!["Project Hail Mary"]);
    let screen = screen.search_typed("dune".to_string()).search_settled().idle();
    assert_eq!(titles(&screen), vec!["Dune"]);
    let screen = screen.search_typed(String::new()).search_settled().idle();
    assert_eq!(titles(&screen).len(), 2);
    let screen = screen.search_typed("nothing".to_string()).search_settled().idle();
    assert!(titles(&screen).is_empty());
    assert!(!screen.status_visible);
}

#[test]
fn offline_mode_narrows_to_downloaded_items_and_back() {
    let screen = opened(vec![
        item("item-1", "Project Hail Mary", Some("Andy Weir"), 1_700_000_000, 3600.0),
        item("item-2", "Dune", Some("Frank Herbert"), 1_600_000_000, 7200.0),
    ]);
    let screen = screen.offline_changed(true);
    assert!(screen.offline_banner && screen.funnel && screen.sheet.downloaded_only);
    assert!(titles(&screen).is_empty());
    assert!(screen.status_visible && !screen.scroller_visible);
    assert_eq!(screen.status_text(), "No downloaded items");
    let screen = screen.downloaded_refetched(None);
    assert!(screen.status_visible);
    let screen = screen.downloaded_refetched(Some(vec!["item-1".to_string()]));
    assert_eq!(titles(&screen), vec!["Project Hail Mary"]);
    assert!(!screen.status_visible && screen.scroller_visible);
    assert_eq!(screen.status_text(), "No items yet");
    let screen = screen.offline_changed(false);
    assert_eq!(titles(&screen).len(), 2);
    assert!(!screen.offline_banner);
    let screen = screen.offline_changed(true);
    assert_eq!(titles(&screen), vec!["Project Hail Mary"]);
}

#[test]
fn offline_mode_off_brings_the_list_back_when_nothing_is_downloaded() {
    let screen = opened(two_books());
    let screen = screen.offline_changed(true).offline_changed(false);
    assert!(screen.scroller_visible && !screen.status_visible);
    assert_eq!(titles(&screen), vec!["Zed Book", "Alpha Book"]);
}

#[test]
fn the_chosen_order_changes_the_list() {
    let screen = opened(two_books());
    assert_eq!(titles(&screen), vec!["Zed Book", "Alpha Book"]);
    let (screen, store) = screen.sort_picked(1);
    assert_eq!(store.sort_by, SortBy::Title);
    assert!(screen.busy);
    assert_eq!(titles(&screen), vec!["Zed Book", "Alpha Book"]);
    let screen = screen.idle();
    assert_eq!(titles(&screen), vec!["Alpha Book", "Zed Book"]);
    let (screen, store) = screen.sort_picked(0);
    assert_eq!(store.sort_by, SortBy::DateOfCreation);
    assert_eq!(titles(&screen.idle()), vec!["Zed Book", "Alpha Book"]);
}

#[test]
fn orders_by_author_and_by_length() {
    let screen = opened(two_books());
    let (screen, _) = screen.sort_picked(2);
    let screen = screen.idle();
    assert_eq!(titles(&screen), vec!["Zed Book", "Alpha Book"]);
    let (screen, _) = screen.sort_picked(3);
    assert_eq!(titles(&screen.idle()), vec!["Alpha Book", "Zed Book"]);
}

#[test]
fn titles_are_ordered_without_regard_to_case() {
    let screen = opened(vec![
        item("1", "banana", None, 1, 1.0),
        item("2", "Apple", None, 2, 1.0),
        item("3", "Çedilla", None, 3, 1.0),
        item("4", "cherry", None, 4, 1.0),
    ]);
    let (screen, _) = screen.sort_picked(1);
    assert_eq!(titles(&screen.idle()), vec!["Apple", "banana", "cherry", "Çedilla"]);
}

#[test]
fn last_listened_puts_the_played_first() {
    let mut d = data(vec![
        item("item-1", "Zed Book", Some("Author A"), 1_700_000_000, 3600.0),
        item("item-2", "Alpha Book", Some("Author B"), 1_600_000_000, 3600.0),
        item("item-3", "Middle Book", Some("Author C"), 1_500_000_000, 3600.0),
    ]);
    d.last_listened = vec![progress("item-1", false, 1000), progress("item-2", false, 2000)];
    let screen = build().loaded(Some(d));
    assert_eq!(titles(&screen), vec!["Zed Book", "Alpha Book", "Middle Book"]);
    let (screen, store) = screen.sort_picked(4);
    assert_eq!(store.sort_by, SortBy::LastListened);
    assert_eq!(titles(&screen.idle()), vec!["Alpha Book", "Zed Book", "Middle Book"]);
}

#[test]
fn the_in_progress_filter_shows_everywhere_it_is_set_from() {
    let mut d = data(vec![
        item("item-1", "Reading Now", Some("Author A"), 1_700_000_000, 3600.0),
        item("item-2", "Finished Book", Some("Author B"), 1_600_000_000, 3600.0),
        item("item-3", "Untouched Book", Some("Author C"), 1_500_000_000, 3600.0),
    ]);
    d.last_listened = vec![progress("item-1", false, 10), progress("item-2", true, 5)];
    let screen = build().loaded(Some(d));
    assert_eq!(titles(&screen).len(), 3);
    assert!(!screen.progress_banner && !screen.sheet.in_progress_only);

    let (screen, store) = screen.in_progress_switched(true);
    assert!(store.unwrap().in_progress_only);
    assert!(screen.progress_banner && screen.sheet.in_progress_only);
    assert_eq!(screen.view_options_icon(), "funnel-symbolic");
    assert_eq!(screen.view_options_tooltip(), "Filter active — view options");
    let screen = screen.idle();
    assert_eq!(titles(&screen), vec!["Reading Now"]);

    let (screen, store) = screen.in_progress_switched(true);
    assert!(store.is_none());

    let screen = screen.set_in_progress_only(false).idle();
    assert!(!screen.progress_banner && !screen.sheet.in_progress_only);
    assert_eq!(screen.view_options_icon(), "preferences-other-symbolic");
    assert_eq!(screen.view_options_tooltip(), "View options");
    assert_eq!(titles(&screen).len(), 3);

    let screen = screen.apply_view(SortKey::LastListened, true).idle();
    assert_eq!(titles(&screen), vec!["Reading Now"]);
    assert!(screen.progress_banner && screen.sheet.in_progress_only);
    assert_eq!(screen.view.sort, SortKey::LastListened);
}

#[test]
fn finished_items_can_be_hidden() {
    let mut d = data(vec![
        item("item-1", "Still Reading", Some("Author A"), 1_700_000_000, 3600.0),
        item("item-2", "Already Finished", Some("Author B"), 1_600_000_000, 3600.0),
    ]);
    d.last_listened = vec![progress("item-1", false, 1), progress("item-2", true, 1)];
    let screen = build().loaded(Some(d));
    let (screen, store) = screen.hide_finished_switched(true);
    assert!(store.hide_finished && screen.funnel && screen.busy);
    let screen = screen.idle();
    assert_eq!(titles(&screen), vec!["Still Reading"]);
    let (screen, store) = screen.hide_finished_switched(false);
    assert!(!store.hide_finished);
    assert_eq!(titles(&screen.idle()).len(), 2);
}

#[test]
fn a_failed_sync_is_reported_by_the_banner() {
    let (screen, ids) = build().loaded(Some(data(Vec::new()))).synced(&SyncOutcome::Failed("HTTP 500".to_string()), Some(data(Vec::new())));
    assert!(screen.banner.revealed);
    assert_eq!(screen.banner.title, "Couldn't sync — showing what's cached.");
    assert!(screen.banner.action.is_none());
    assert!(screen.status_visible && ids.is_empty());
}

#[test]
fn a_rejected_session_offers_to_log_in_again() {
    let (screen, _) = build().synced(&SyncOutcome::Unauthorized("401".to_string()), Some(data(Vec::new())));
    assert_eq!(screen.banner.title, "Session expired — showing what's cached.");
    assert_eq!(screen.banner.action.as_deref(), Some("Log in again"));
    assert!(screen.status_visible);
    let (screen, _) = screen.synced(&SyncOutcome::Synced, None);
    assert!(!screen.banner.revealed);
}

#[test]
fn no_libraries_bring_the_empty_page_up() {
    let (screen, ids) = build().synced(&SyncOutcome::Synced, Some(data(Vec::new())));
    assert!(screen.status_visible && !screen.scroller_visible);
    assert_eq!(screen.status_text(), "No items yet");
    assert!(ids.is_empty());
}

#[test]
fn covers_are_fetched_for_every_item() {
    let (_, ids) = build().synced(&SyncOutcome::Synced, Some(data(two_books())));
    assert_eq!(ids, vec!["item-1", "item-2"]);
    let (_, ids) = build().synced(&SyncOutcome::Synced, None);
    assert!(ids.is_empty());
}

#[test]
fn a_tapped_item_is_opened_by_its_id() {
    let screen = opened(vec![item("item-1", "Project Hail Mary", Some("Andy Weir"), 1_700_000_000, 3600.0)]);
    let request = play_request(&screen.data.items[screen.sections[0].positions[0]]);
    assert_eq!(request.item_id, "item-1");
    assert_eq!(request.title, "Project Hail Mary");
    assert_eq!(request.author.as_deref(), Some("Andy Weir"));
}

#[test]
fn rows_and_tiles_change_after_the_spinner_shows() {
    let screen = opened(two_books());
    assert!(screen.list_visible && !screen.grid_visible && !screen.busy);
    assert_eq!(screen.view_toggle_icon(), "view-grid-symbolic");
    assert_eq!(screen.view_toggle_tooltip(), "Grid view");
    let (screen, mode) = screen.view_mode_toggled(false);
    assert_eq!(mode, LibraryViewMode::Grid);
    assert!(screen.busy && screen.list_visible);
    assert_eq!(screen.view_toggle_icon(), "view-list-symbolic");
    assert_eq!(screen.view_toggle_tooltip(), "List view");
    let screen = screen.idle();
    assert!(!screen.busy && !screen.list_visible && screen.grid_visible);
    assert_eq!(titles(&screen).len(), 2);
    let (screen, mode) = screen.view_mode_toggled(true);
    assert_eq!(mode, LibraryViewMode::List);
    let screen = screen.idle();
    assert!(screen.list_visible && !screen.grid_visible);
}

#[test]
fn a_stored_view_mode_is_restored() {
    let screen = build().apply_view_mode(LibraryViewMode::Grid).idle();
    assert!(screen.grid_visible && !screen.list_visible);
}

#[test]
fn a_row_shows_title_and_subtitle() {
    let screen = opened(vec![item("item-1", "Project Hail Mary", Some("Andy Weir"), 1_700_000_000, 3600.0), item("item-2", "Untold", None, 1, 5400.0)]);
    let tile = screen.tile(0);
    assert_eq!(tile.title, "Project Hail Mary");
    assert_eq!(tile.subtitle, "Andy Weir · 1.0h");
    assert!(!tile.downloaded);
    assert_eq!(screen.tile(1).subtitle, "Unknown author · 1.5h");
}

#[test]
fn only_tiles_mark_what_is_downloaded() {
    let mut d = data(two_books());
    d.downloaded = vec!["item-2".to_string()];
    let screen = build().loaded(Some(d));
    assert!(!screen.tile(1).downloaded);
    let screen = screen.apply_view_mode(LibraryViewMode::Grid).idle();
    assert!(screen.tile(1).downloaded && !screen.tile(0).downloaded);
}

#[test]
fn the_author_chip_groups_with_headings() {
    let screen = opened(vec![
        item("item-1", "Book By Weir", Some("Andy Weir"), 1_700_000_000, 3600.0),
        item("item-2", "Book By Herbert", Some("Frank Herbert"), 1_600_000_000, 3600.0),
    ]);
    let (screen, store) = screen.chip_picked(Chip::Author);
    assert_eq!(store.unwrap().grouping, Grouping::ByAuthor);
    assert!(screen.busy);
    assert_eq!(titles(&screen).len(), 2);
    let screen = screen.idle();
    assert_eq!(entries(&screen), vec!["§Andy Weir", "Book By Weir", "§Frank Herbert", "Book By Herbert"]);
    assert_eq!(screen.clone().sheet_opened().sheet.grouping, 2);
    let (screen, _) = screen.chip_picked(Chip::Series);
    let screen = screen.idle();
    assert_eq!(entries(&screen), vec!["§Other", "Book By Weir", "Book By Herbert"]);
    let (screen, store) = screen.chip_picked(Chip::All);
    assert_eq!(store.unwrap().grouping, Grouping::Ungrouped);
    assert_eq!(entries(&screen.idle()).len(), 2);
}

#[test]
fn picking_the_active_chip_changes_nothing() {
    let (screen, store) = opened(two_books()).chip_picked(Chip::All);
    assert!(store.is_none() && !screen.busy);
}

#[test]
fn named_series_come_before_the_rest_without_regard_to_case() {
    let screen = opened(vec![
        with("item-1", "Book B", Some("Banana"), &[]),
        with("item-2", "Book A", Some("apple"), &[]),
        with("item-3", "Book None", None, &[]),
    ]);
    let (screen, _) = screen.grouping_picked(1);
    assert_eq!(screen.chip, Chip::Series);
    let screen = screen.idle();
    assert_eq!(entries(&screen), vec!["§apple", "Book A", "§Banana", "Book B", "§Other", "Book None"]);
}

#[test]
fn unknown_authors_come_last() {
    let screen = opened(vec![
        item("item-2", "Book By Nobody", None, 1_800_000_000, 3600.0),
        item("item-1", "Book By Weir", Some("Andy Weir"), 1_700_000_000, 3600.0),
        item("item-3", "Book By Zola", Some("Zola"), 1_600_000_000, 3600.0),
    ]);
    let (screen, _) = screen.grouping_picked(2);
    assert_eq!(entries(&screen.idle()), vec!["§Andy Weir", "Book By Weir", "§Zola", "Book By Zola", "§Unknown author", "Book By Nobody"]);
}

#[test]
fn a_series_can_be_shown_alone() {
    let screen = opened(vec![
        with("item-1", "Foundation Book", Some("Foundation"), &[]),
        with("item-2", "Dune Book", Some("Dune"), &[]),
        with("item-3", "Standalone Book", None, &[]),
    ]);
    let screen = screen.apply_series_filter("Foundation").idle();
    assert_eq!(entries(&screen), vec!["Foundation Book"]);
    assert_eq!(screen.view.grouping, Grouping::Ungrouped);
}

#[test]
fn a_genre_filters_and_is_not_stored() {
    let screen = opened(vec![
        with("item-1", "Sci-Fi Book", None, &["Sci-Fi"]),
        with("item-2", "Fantasy Book", None, &["Fantasy", "Sci-Fi"]),
    ]);
    assert_eq!(screen.genre_chips, vec!["Fantasy", "Sci-Fi"]);
    let (screen, store) = screen.chip_picked(Chip::Genre);
    assert!(store.is_none() && screen.genre_row && !screen.busy);
    let screen = screen.genre_picked(0).idle();
    assert_eq!(titles(&screen), vec!["Fantasy Book"]);
    assert!(matches!(&screen.view.category, CategoryFilter::Genre(g) if g == "Fantasy"));
    assert_eq!(screen.view_options().grouping, Grouping::Ungrouped);
    let (screen, _) = screen.chip_picked(Chip::All);
    assert!(!screen.genre_row);
    assert_eq!(titles(&screen.idle()).len(), 2);
}

#[test]
fn stored_choices_return_on_the_next_screen() {
    let screen = opened(two_books());
    let (screen, _) = screen.sort_picked(4);
    let (screen, _) = screen.hide_finished_switched(true);
    let (screen, _) = screen.in_progress_switched(true);
    let (_, options) = screen.grouping_picked(2);
    let next = build().options_loaded(options);
    assert_eq!(next.view.sort, SortKey::LastListened);
    assert!(next.view.hide_finished && next.view.in_progress_only && next.progress_banner && next.funnel);
    assert_eq!(next.view.grouping, Grouping::ByAuthor);
    assert_eq!(next.view_options(), options);
    let next = next.sheet_opened();
    assert_eq!(next.sheet.sort_by, 4);
    assert_eq!(next.sheet.grouping, 2);
    assert!(next.sheet.hide_finished);
}

#[test]
fn opening_the_sheet_stores_and_renders_nothing() {
    let screen = opened(two_books()).apply_view(SortKey::LastListened, true).idle();
    let before = screen.view_options();
    let screen = screen.sheet_opened();
    assert!(!screen.busy && !screen.render_due);
    assert_eq!(screen.view_options(), before);
    assert_eq!(screen.sheet.sort_by, 4);
}

/// Runs a cycle to its end over what is read before the sync, after it and with
/// the covers; what it announces, and how often it hears something.
fn run(screen: LibraryScreen, cycle: Cycle, outcome: SyncOutcome, reads: Vec<Option<LibraryData>>) -> (LibraryScreen, Option<String>, usize) {
    let (mut screen, mut cycle, mut reads) = (screen, cycle, reads.into_iter());
    let mut event = CycleEvent::Read(reads.next().unwrap());
    let mut heard = 0;
    loop {
        heard += 1;
        let (shown, next, action) = screen.cycle_step(cycle, event);
        screen = shown;
        cycle = next;
        event = match action {
            CycleAction::Read => CycleEvent::Read(reads.next().unwrap()),
            CycleAction::Sync => CycleEvent::Synced(outcome.clone()),
            CycleAction::Fetch(_) => {
                assert_eq!(screen.banner.revealed, !matches!(outcome, SyncOutcome::Synced));
                CycleEvent::Fetched
            }
            CycleAction::End(text) => {
                assert!(matches!(cycle.stage, Stage::Ended));
                return (screen, text, heard);
            }
            CycleAction::Nothing => panic!("the cycle waits for it"),
        };
    }
}

#[test]
fn a_manual_sync_is_exclusive_and_announced() {
    let (screen, cycle) = build().cycle_asked(false);
    let (screen, text, heard) = run(screen, cycle.unwrap(), SyncOutcome::Synced, vec![None, None]);
    assert_eq!((text, heard), (None, 3));
    let (screen, manual) = screen.cycle_asked(true);
    assert!(screen.manual.in_flight);
    let (screen, refused) = screen.cycle_asked(true);
    assert!(refused.is_none());
    let (screen, automatic) = screen.cycle_asked(false);
    let (screen, text, _) = run(screen, automatic.unwrap(), SyncOutcome::Synced, vec![None, None]);
    assert!(text.is_none() && screen.manual.in_flight);
    let (screen, text, heard) = run(screen, manual.unwrap(), SyncOutcome::Synced, vec![None, Some(data(two_books())), None]);
    assert_eq!((text.as_deref(), heard), (Some("Sync complete"), 5));
    assert!(!screen.manual.in_flight);
    let (screen, cycle) = screen.cycle_asked(true);
    let failed = SyncOutcome::Failed("x".to_string());
    let (screen, text, _) = run(screen, cycle.unwrap(), failed, vec![None, Some(data(two_books())), None]);
    assert_eq!(text.as_deref(), Some("Sync failed"));
    assert!(screen.banner.revealed);
}

#[test]
fn without_items_the_page_speaks_of_downloads_only_offline() {
    let screen = opened(Vec::new()).offline_changed(true);
    assert_eq!(screen.status_title, StatusTitle::NoDownloadedItems);
    assert!(screen.status_visible);
    let screen = screen.offline_changed(false);
    assert_eq!(screen.status_title, StatusTitle::NoItemsYet);
    assert!(screen.status_visible && !screen.scroller_visible);
}

#[test]
fn a_failed_load_leaves_the_screen() {
    let screen = opened(two_books()).loaded(None);
    assert_eq!(titles(&screen).len(), 2);
    assert_eq!(screen.status_title, StatusTitle::NoItemsYet);
}
