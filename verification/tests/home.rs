use abs_screens::double::Double;
use abs_screens::home::{
    assemble, avatar_letter, avatar_tooltip, build, continue_subtitle, cover_ids, is_worth_continuing, library_icon, recently_added, shelve, EmptyState, HomeData, HomeScreen,
};
use abs_screens::models::{Item, Library, Progress, Timestamp};
use abs_screens::sync::{Cycle, CycleAction, CycleEvent, Stage, SyncOutcome};

fn d(x: f64) -> Double {
    Double { bits: x.to_bits() }
}

fn item(id: &str, title: &str, added: i64) -> Item {
    Item {
        id: id.to_string(),
        title: title.to_string(),
        author: Some("Andy Weir".to_string()),
        narrator: None,
        description: None,
        series_name: None,
        genres: Vec::new(),
        duration: d(3600.0),
        added_at: Timestamp { seconds: added, nanos: 0 },
        cover_path: None,
        search_title: title.to_lowercase(),
        search_author: None,
    }
}

fn progress(id: &str, seconds: f64, finished: bool) -> Progress {
    Progress { item_id: id.to_string(), current_time: d(seconds), is_finished: finished, updated_at: Timestamp { seconds: 0, nanos: 0 } }
}

fn library(id: &str, media_type: &str) -> Library {
    Library { id: id.to_string(), name: "Audiobooks".to_string(), media_type: media_type.to_string() }
}

fn synced_data() -> HomeData {
    assemble(
        vec![library("lib-1", "book")],
        vec![item("item-1", "Project Hail Mary", 1), item("item-2", "Dune", 2)],
        vec![(progress("item-1", 600.0, false), Some(item("item-1", "Project Hail Mary", 1))), (progress("item-2", 3600.0, true), Some(item("item-2", "Dune", 2)))],
        Vec::new(),
    )
}

fn empty_data() -> HomeData {
    assemble(Vec::new(), Vec::new(), Vec::new(), Vec::new())
}

fn recent_titles(screen: &HomeScreen) -> Vec<String> {
    let data = screen.last_data.as_ref().unwrap();
    screen.recent_row.iter().map(|c| data.items[c.position].title.clone()).collect()
}

#[test]
fn a_synced_library_and_its_items_show() {
    let data = assemble(vec![library("lib-1", "book")], vec![item("item-1", "Project Hail Mary", 1)], Vec::new(), Vec::new());
    let (screen, ids) = build().synced(Some(data));
    let screen = screen.resolve(&SyncOutcome::Synced, true);
    assert!(!screen.empty_state.visible && screen.scroller_visible);
    assert_eq!(recent_titles(&screen), vec!["Project Hail Mary"]);
    assert_eq!(screen.recent_row[0].subtitle, "Andy Weir · 1.0h");
    assert!(!screen.continue_visible && !screen.banner.revealed);
    assert_eq!(ids.unwrap(), vec!["item-1"]);
}

#[test]
fn finished_books_are_not_continued_but_stay_recent() {
    let screen = build().loaded(Some(synced_data()));
    assert!(screen.continue_visible);
    assert_eq!(screen.continue_row.len(), 1);
    assert_eq!(screen.continue_row[0].subtitle, "Andy Weir · 17% listened");
    assert_eq!(recent_titles(&screen), vec!["Dune", "Project Hail Mary"]);
}

#[test]
fn offline_home_shows_what_is_downloaded() {
    let screen = build().loaded(Some(synced_data())).offline_changed(true);
    assert!(screen.offline_banner);
    let screen = screen.downloaded_refetched(Some(vec!["item-1".to_string()]));
    assert_eq!(recent_titles(&screen), vec!["Project Hail Mary"]);
    assert!(screen.recent_row[0].downloaded);
    assert_eq!(screen.continue_row.len(), 1);
    let screen = screen.offline_changed(false).downloaded_refetched(None);
    assert!(!screen.offline_banner);
    assert_eq!(screen.recent_row.len(), 2);
    assert!(!screen.recent_row[0].downloaded && screen.recent_row[1].downloaded);
}

#[test]
fn a_refetch_before_anything_was_loaded_shows_nothing() {
    let screen = build().downloaded_refetched(Some(vec!["item-1".to_string()]));
    assert!(screen.last_data.is_none() && screen.empty_state.visible);
}

#[test]
fn a_server_without_libraries_is_no_error() {
    let (screen, ids) = build().loaded(Some(empty_data())).synced(Some(empty_data()));
    assert!(ids.is_none());
    let screen = screen.resolve(&SyncOutcome::Synced, false);
    assert!(screen.empty_state.visible && screen.empty_state.retry);
    assert_eq!(screen.empty_state.title, "No library synced yet");
    assert_eq!(screen.empty_state.description, "This server doesn't have any libraries yet.");
    assert_eq!(screen.empty_state.icon_name, "folder-music-symbolic");
    assert!(!screen.empty_state.details && !screen.banner.revealed && !screen.scroller_visible);
}

#[test]
fn a_failed_first_sync_can_be_retried() {
    let screen = build().synced(None).0.resolve(&SyncOutcome::Failed("HTTP 500".to_string()), false);
    assert_eq!(screen.empty_state.title, "Couldn't sync your libraries");
    assert_eq!(screen.empty_state.icon_name, "dialog-warning-symbolic");
    assert!(screen.empty_state.details && screen.empty_state.retry && !screen.empty_state.login_again);
    assert_eq!(screen.empty_state.details_text, "HTTP 500");
    assert!(!screen.empty_state.spinning);
    let screen = screen.retry_pressed();
    assert!(screen.empty_state.spinning && screen.empty_state.visible && !screen.empty_state.buttons);
    let (screen, _) = screen.synced(Some(synced_data()));
    let screen = screen.resolve(&SyncOutcome::Synced, true);
    assert!(!screen.empty_state.visible && !screen.banner.revealed && screen.scroller_visible);
}

#[test]
fn a_dead_session_without_content_offers_to_sign_in() {
    let screen = build().resolve(&SyncOutcome::Unauthorized(String::new()), false);
    assert_eq!(screen.empty_state.title, "Sign in again");
    assert_eq!(screen.empty_state.icon_name, "system-lock-screen-symbolic");
    assert!(screen.empty_state.login_again && screen.empty_state.retry && !screen.empty_state.details);
    assert!(!screen.banner.revealed);
}

#[test]
fn a_dead_session_over_content_uses_the_banner() {
    let screen = build().loaded(Some(synced_data())).resolve(&SyncOutcome::Unauthorized("401".to_string()), true);
    assert!(screen.banner.revealed && !screen.empty_state.visible);
    assert_eq!(screen.banner.title, "Session expired — showing what's cached.");
    assert_eq!(screen.banner.action.as_deref(), Some("Log in again"));
    assert_eq!(screen.banner.details.as_deref(), Some("401"));
    let screen = screen.resolve(&SyncOutcome::Failed("down".to_string()), true);
    assert_eq!(screen.banner.title, "Couldn't sync — showing what's cached.");
    assert!(screen.banner.action.is_none());
    let screen = screen.resolve(&SyncOutcome::Synced, true);
    assert!(!screen.banner.revealed);
}

#[test]
fn the_first_sync_shows_a_spinner() {
    let screen = build();
    assert!(screen.empty_state.visible && screen.empty_state.spinner && screen.empty_state.spinning);
    assert!(!screen.empty_state.buttons);
    assert_eq!(screen.empty_state.title, "Syncing your libraries…");
    assert_eq!(screen.empty_state.description, "This can take a moment on first sync.");
    let screen = screen.loaded(Some(synced_data()));
    assert!(!screen.empty_state.visible && !screen.empty_state.spinning);
}

#[test]
fn a_manual_sync_of_home_is_exclusive_and_announced() {
    let (screen, cycle) = build().cycle_asked(true);
    let (screen, refused) = screen.cycle_asked(true);
    assert!(refused.is_none() && screen.manual.in_flight);
    let (screen, text, _) = run(screen, cycle.unwrap(), SyncOutcome::Unauthorized("x".to_string()), vec![None, None]);
    assert_eq!(text.as_deref(), Some("Sync failed"));
    let (screen, cycle) = screen.cycle_asked(true);
    let (screen, text, _) = run(screen, cycle.unwrap(), SyncOutcome::Synced, vec![None, None]);
    assert_eq!(text.as_deref(), Some("Sync complete"));
    let (screen, cycle) = screen.cycle_asked(false);
    assert!(!screen.manual.in_flight);
    assert!(run(screen, cycle.unwrap(), SyncOutcome::Synced, vec![None, None]).1.is_none());
}

#[test]
fn the_ten_newest_items_are_recent() {
    let items: Vec<Item> = (0..14).map(|i| item(&format!("{i}"), "t", (i * 7) % 14)).collect();
    let mut expected: Vec<usize> = (0..14).collect();
    expected.sort_by_key(|i| std::cmp::Reverse(items[*i].added_at.seconds));
    expected.truncate(10);
    assert_eq!(recently_added(&items), expected);
    assert!(recently_added(&Vec::new()).is_empty());
    assert_eq!(recently_added(&items[..3].to_vec()).len(), 3);
}

/// Runs a cycle to its end over what is read before the sync, after it and with
/// the covers; what it announces, and how often it hears something.
fn run(screen: HomeScreen, cycle: Cycle, outcome: SyncOutcome, reads: Vec<Option<HomeData>>) -> (HomeScreen, Option<String>, usize) {
    let (mut screen, mut cycle, mut reads) = (screen, cycle, reads.into_iter());
    let mut event = CycleEvent::Read(reads.next().unwrap());
    let mut heard = 0;
    loop {
        heard += 1;
        let (shown, next, action) = screen.cycle_step(cycle, event);
        screen = shown;
        cycle = next;
        event = match action {
            CycleAction::Read => CycleEvent::Read(reads.next().unwrap()),
            CycleAction::Sync => CycleEvent::Synced(outcome.clone()),
            CycleAction::Fetch(_) => CycleEvent::Fetched,
            CycleAction::End(text) => {
                assert!(matches!(cycle.stage, Stage::Ended));
                return (screen, text, heard);
            }
            CycleAction::Nothing => panic!("the cycle waits for it"),
        };
    }
}

#[test]
fn a_manual_cycle_ends_once_with_its_outcome_on_screen() {
    let (screen, cycle) = build().cycle_asked(true);
    let failed = SyncOutcome::Failed("down".to_string());
    let (screen, text, heard) = run(screen, cycle.unwrap(), failed.clone(), vec![None, Some(synced_data()), None]);
    assert_eq!((text.as_deref(), heard), (Some("Sync failed"), 5));
    assert!(screen.banner.revealed && screen.scroller_visible && !screen.manual.in_flight);
    let (screen, cycle) = screen.cycle_asked(false);
    let (screen, text, heard) = run(screen, cycle.unwrap(), SyncOutcome::Synced, vec![None, Some(synced_data()), Some(synced_data())]);
    assert_eq!((text, heard), (None, 5));
    assert!(!screen.banner.revealed);
    let (screen, cycle) = build().cycle_asked(true);
    let (screen, text, heard) = run(screen, cycle.unwrap(), failed, vec![None, None]);
    assert_eq!((text.as_deref(), heard), (Some("Sync failed"), 3));
    assert!(screen.empty_state.visible && screen.empty_state.details_text == "down" && !screen.manual.in_flight);
}

#[test]
fn a_cycle_ignores_what_it_does_not_wait_for() {
    let (screen, cycle) = build().cycle_asked(true);
    let (screen, cycle, action) = screen.cycle_step(cycle.unwrap(), CycleEvent::Synced(SyncOutcome::Synced));
    assert!(matches!(action, CycleAction::Nothing) && matches!(cycle.stage, Stage::Reading));
    let (screen, cycle, _) = screen.cycle_step(cycle, CycleEvent::Read(None));
    let (screen, cycle, _) = screen.cycle_step(cycle, CycleEvent::Synced(SyncOutcome::Synced));
    let (screen, cycle, action) = screen.cycle_step(cycle, CycleEvent::Read(Some(empty_data())));
    assert!(matches!(action, CycleAction::End(Some(_))));
    let (_, _, action) = screen.cycle_step(cycle, CycleEvent::Read(Some(empty_data())));
    assert!(matches!(action, CycleAction::Nothing));
}

#[test]
fn covers_are_asked_for_after_the_sync() {
    let (screen, cycle) = build().cycle_asked(false);
    let (screen, cycle, action) = screen.cycle_step(cycle.unwrap(), CycleEvent::Read(Some(synced_data())));
    assert!(matches!(action, CycleAction::Sync) && screen.scroller_visible);
    let (screen, cycle, _) = screen.cycle_step(cycle, CycleEvent::Synced(SyncOutcome::Synced));
    match screen.cycle_step(cycle, CycleEvent::Read(Some(synced_data()))).2 {
        CycleAction::Fetch(ids) => assert_eq!(ids, vec!["item-1", "item-2"]),
        _ => panic!("covers come next"),
    }
}

#[test]
fn the_empty_view_never_stands_beside_the_shelves() {
    let (screen, cycle) = build().loaded(Some(synced_data())).cycle_asked(true);
    let failed = SyncOutcome::Failed("down".to_string());
    let (screen, _, _) = run(screen, cycle.unwrap(), failed, vec![None, None]);
    assert!(screen.scroller_visible && !screen.empty_state.visible && screen.banner.revealed);
    let (screen, cycle) = screen.cycle_asked(true);
    let (screen, _, _) = run(screen, cycle.unwrap(), SyncOutcome::Synced, vec![None, Some(empty_data())]);
    assert!(!screen.scroller_visible && screen.empty_state.visible && !screen.banner.revealed);
    assert_eq!(screen.empty_state.title, "No library synced yet");
}

#[test]
fn rows_without_an_item_are_left_out() {
    let rows = vec![
        (progress("a", 1.0, false), None),
        (progress("b", 1.0, false), Some(item("b", "B", 0))),
        (progress("c", 1.0, true), Some(item("c", "C", 0))),
        (progress("d", 1.0, false), Some(item("d", "D", 0))),
    ];
    let shelf = shelve(rows);
    let ids: Vec<String> = shelf.iter().map(|e| e.0.id.clone()).collect();
    assert_eq!(ids, vec!["b", "d"]);
    assert!(is_worth_continuing(&progress("a", 0.0, false)) && !is_worth_continuing(&progress("a", 0.0, true)));
}

#[test]
fn percentages_stay_between_none_and_all() {
    let mut i = item("a", "A", 0);
    assert_eq!(continue_subtitle(&i, &progress("a", 1800.0, false)), "Andy Weir · 50% listened");
    assert_eq!(continue_subtitle(&i, &progress("a", 9999.0, false)), "Andy Weir · 100% listened");
    assert_eq!(continue_subtitle(&i, &progress("a", -5.0, false)), "Andy Weir · 0% listened");
    i.duration = d(0.0);
    i.author = None;
    assert_eq!(continue_subtitle(&i, &progress("a", 10.0, false)), "Unknown author · 0% listened");
}

#[test]
fn covers_are_fetched_once_per_item_on_a_shelf() {
    assert_eq!(cover_ids(&synced_data()), vec!["item-1", "item-2"]);
    assert!(cover_ids(&empty_data()).is_empty());
}

#[test]
fn avatars_show_the_first_letter() {
    assert_eq!(avatar_letter("jane"), "J");
    assert_eq!(avatar_letter("ąka"), "Ą");
    assert_eq!(avatar_letter("ßen"), "SS");
    assert_eq!(avatar_letter("1st"), "1");
    assert_eq!(avatar_letter(""), "?");
    assert_eq!(avatar_tooltip("jane"), "Signed in as jane");
}

#[test]
fn podcasts_have_their_own_icon() {
    assert_eq!(library_icon(&library("a", "podcast")), "audio-input-microphone-symbolic");
    assert_eq!(library_icon(&library("a", "book")), "system-file-manager-symbolic");
}

#[test]
fn an_empty_state_can_be_dismissed() {
    let state = EmptyState::build().show_empty().dismiss();
    assert!(!state.visible && !state.spinning);
    assert_eq!(state.title, "No library synced yet");
}
