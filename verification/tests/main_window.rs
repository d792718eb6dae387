use abs_screens::browse::{CategoryFilter, LibraryData, SortKey};
use abs_screens::double::Double;
use abs_screens::home::{self, Shelf};
use abs_screens::library::{self};
use abs_screens::main_window::{build, relogin_seed, tab_for, tab_name, ChapterSeek, Content, MainWindow, SeekStep, Tab, CHAPTER_POLLS};
use abs_screens::models::{Item, Library, PlayRequest, Timestamp};
use abs_screens::player::ChapterInfo;
use abs_screens::settings::{Account, Server};

fn window() -> MainWindow {
    build(home::build(), library::build())
}

fn s(x: &str) -> String {
    x.to_string()
}

fn request() -> PlayRequest {
    PlayRequest { item_id: s("item-1"), title: s("Project Hail Mary"), author: None }
}

fn item(id: &str, title: &str) -> Item {
    Item {
        id: s(id),
        title: s(title),
        author: None,
        narrator: None,
        description: None,
        series_name: None,
        genres: Vec::new(),
        duration: Double { bits: 0 },
        added_at: Timestamp { seconds: 0, nanos: 0 },
        cover_path: None,
        search_title: String::new(),
        search_author: None,
    }
}

#[test]
fn tabs_are_asked_for_by_name() {
    for (name, tab) in [("home", Tab::Home), ("library", Tab::Library), ("downloads", Tab::Downloads), ("settings", Tab::Settings)] {
        assert_eq!(tab_for(&s(name)), Some(tab));
        assert_eq!(tab_name(tab), name);
    }
    let w = window().switch_tab(&s("settings"));
    assert_eq!(w.tab, Tab::Settings);
    let w = w.switch_tab(&s("library"));
    assert_eq!(w.tab, Tab::Library);
    let w = w.switch_tab(&s("Library"));
    assert_eq!(w.tab, Tab::Library);
    assert_eq!(w.switch_tab(&s("nowhere")).tab, Tab::Library);
}

#[test]
fn the_search_lands_on_the_library() {
    let w = window().open_library_search();
    assert_eq!(w.tab, Tab::Library);
    assert!(w.search_focused);
    assert_eq!(w.open_settings().tab, Tab::Settings);
}

#[test]
fn shelves_open_the_library_with_their_view() {
    let w = window().open_shelf(Shelf::ContinueListening);
    assert_eq!(w.tab, Tab::Library);
    assert_eq!(w.library.view.sort, SortKey::LastListened);
    assert!(w.library.view.in_progress_only && w.library.progress_banner);
    let w = w.open_shelf(Shelf::RecentlyAdded);
    assert_eq!(w.library.view.sort, SortKey::DateAdded);
    assert!(!w.library.view.in_progress_only);
}

#[test]
fn a_card_opens_its_item_and_play_returns_to_the_tabs() {
    let w = window().open_item(request());
    assert!(matches!(&w.content, Content::Detail(r) if r.item_id == "item-1"));
    let (w, playback) = w.play(None);
    let playback = playback.unwrap();
    assert_eq!(playback.request.item_id, "item-1");
    assert!(playback.seek.is_none());
    assert!(matches!(w.content, Content::Shell));
    let (w, playback) = w.play(Some(1));
    assert!(playback.is_none());
    let (_, playback) = w.open_item(request()).play(Some(1));
    assert_eq!(playback.unwrap().seek, Some(ChapterSeek { index: 1, polls_left: CHAPTER_POLLS }));
}

#[test]
fn the_back_button_starts_nothing() {
    let w = window().open_item(request()).leave_item();
    assert!(matches!(w.content, Content::Shell));
}

#[test]
fn the_player_brings_its_keys_and_takes_them_along() {
    let w = window().open_player();
    assert!(matches!(w.content, Content::Player) && w.player_keys);
    let w = w.collapse_player();
    assert!(matches!(w.content, Content::Shell) && !w.player_keys);
}

#[test]
fn a_series_is_opened_in_the_library() {
    let w = window().open_item(request()).open_series("Foundation");
    assert_eq!(w.tab, Tab::Library);
    assert!(matches!(w.content, Content::Shell));
    assert!(matches!(&w.library.view.category, CategoryFilter::OneSeries(n) if n == "Foundation"));
}

#[test]
fn offline_mode_is_shared_by_home_and_library() {
    let items = vec![item("item-1", "Project Hail Mary"), item("item-2", "Dune")];
    let home = home::build().loaded(Some(home::assemble(
        vec![Library { id: s("l"), name: s("Audiobooks"), media_type: s("book") }],
        items.clone(),
        Vec::new(),
        vec![s("item-1")],
    )));
    let library = library::build().loaded(Some(LibraryData { items, downloaded: vec![s("item-1")], last_listened: Vec::new() }));
    let w = build(home, library).offline_changed(true);
    assert!(w.home.offline && w.home.offline_banner && w.library.view.offline && w.library.offline_banner);
    assert_eq!(w.library.sections[0].positions, vec![0]);
    let w = w.offline_changed(false);
    assert!(!w.home.offline_banner && !w.library.offline_banner);
    assert_eq!(w.library.sections[0].positions.len(), 2);
}

#[test]
fn a_seek_waits_for_the_chapters_and_gives_up() {
    let chapters = vec![
        ChapterInfo { title: s("Intro"), start: Double { bits: 0 }, end: Double { bits: 4.0f64.to_bits() } },
        ChapterInfo { title: s("One"), start: Double { bits: 4.0f64.to_bits() }, end: Double { bits: 8.0f64.to_bits() } },
    ];
    let mut seek = ChapterSeek::new(1);
    let mut polls = 0;
    while let SeekStep::Wait(next) = seek.poll(&Vec::new()) {
        seek = next;
        polls += 1;
    }
    assert_eq!(polls, 50);
    assert!(matches!(seek.poll(&chapters), SeekStep::GiveUp));
    let SeekStep::Wait(seek) = ChapterSeek::new(1).poll(&Vec::new()) else { panic!("the chapters are not known yet") };
    assert!(matches!(seek.poll(&chapters), SeekStep::Seek(start) if start.bits == 4.0f64.to_bits()));
}

#[test]
fn the_login_screen_is_filled_in() {
    let server = Server { id: s("srv"), url: s("http://127.0.0.1:1") };
    let account = Account { id: s("acc"), username: s("jane"), is_active: true };
    let seed = relogin_seed(&server, &account);
    assert_eq!((seed.server_id, seed.account_id), (s("srv"), s("acc")));
    assert_eq!((seed.url, seed.username), (s("http://127.0.0.1:1"), s("jane")));
}
