use abs_screens::double::Double;
use abs_screens::item_detail::{build, chapters_or_stored, current_chapter_index, format_duration, series_label, SeriesInfo};
use abs_screens::models::{Item, Progress, Timestamp};
use abs_screens::player::ChapterInfo;

fn d(x: f64) -> Double {
    Double { bits: x.to_bits() }
}

fn f(x: Double) -> f64 {
    f64::from_bits(x.bits)
}

fn item(title: &str, author: Option<&str>, narrator: Option<&str>) -> Item {
    Item {
        id: "item-1".to_string(),
        title: title.to_string(),
        author: author.map(|a| a.to_string()),
        narrator: narrator.map(|n| n.to_string()),
        description: None,
        series_name: None,
        genres: Vec::new(),
        duration: d(3600.0),
        added_at: Timestamp { seconds: 0, nanos: 0 },
        cover_path: None,
        search_title: String::new(),
        search_author: None,
    }
}

fn progress(seconds: f64, finished: bool) -> Option<Progress> {
    Some(Progress { item_id: "item-1".to_string(), current_time: d(seconds), is_finished: finished, updated_at: Timestamp { seconds: 0, nanos: 0 } })
}

fn id() -> String {
    "item-1".to_string()
}

fn chapter(title: &str, start: f64, end: f64) -> ChapterInfo {
    ChapterInfo { title: title.to_string(), start: d(start), end: d(end) }
}

#[test]
fn an_unstarted_book_offers_to_play() {
    let page = build(&id(), &Some(item("Project Hail Mary", Some("Andy Weir"), Some("Ray Porter"))), &None);
    assert_eq!(page.title, "Project Hail Mary");
    assert_eq!(page.author.as_deref(), Some("Andy Weir · Narrated by Ray Porter"));
    assert_eq!(page.duration, "1.0h");
    assert_eq!(page.play_label, "Play");
    assert!(page.progress.is_none() && page.series.is_none() && page.description.is_none());
    assert!(!page.chapters_visible && !page.wants_series());
}

#[test]
fn an_empty_narrator_is_not_named() {
    let page = build(&id(), &Some(item("Meditations", Some("Marcus Aurelius"), Some(""))), &None);
    assert_eq!(page.author.as_deref(), Some("Marcus Aurelius"));
    assert!(build(&id(), &Some(item("Meditations", None, Some("X"))), &None).author.is_none());
}

#[test]
fn an_unknown_item_shows_its_id() {
    let page = build(&id(), &None, &progress(10.0, false));
    assert_eq!(page.title, "item-1");
    assert_eq!(page.duration, "");
    assert_eq!(page.play_label, "Resume");
    assert!(page.progress.is_none() && page.author.is_none());
}

#[test]
fn a_started_book_is_resumed() {
    let page = build(&id(), &Some(item("T", None, None)), &progress(1800.0, false));
    assert_eq!(page.play_label, "Resume");
    assert_eq!(page.progress.map(f), Some(0.5));
    let page = build(&id(), &Some(item("T", None, None)), &progress(9000.0, false));
    assert_eq!(page.progress.map(f), Some(1.0));
}

#[test]
fn a_finished_book_is_played_afresh() {
    let page = build(&id(), &Some(item("T", None, None)), &progress(1800.0, true));
    assert_eq!(page.play_label, "Play");
    assert!(page.progress.is_none());
    assert_eq!(f(page.position), 0.0);
}

#[test]
fn a_book_without_a_length_has_no_bar() {
    let mut i = item("T", None, None);
    i.duration = d(0.0);
    let page = build(&id(), &Some(i), &progress(5.0, false));
    assert_eq!(page.play_label, "Resume");
    assert!(page.progress.is_none());
    assert_eq!(page.duration, "0m");
}

#[test]
fn long_descriptions_can_be_expanded() {
    let mut i = item("T", None, None);
    i.description = Some("ż".repeat(240));
    assert!(!build(&id(), &Some(i.clone()), &None).more_visible);
    i.description = Some("ż".repeat(241));
    let page = build(&id(), &Some(i.clone()), &None);
    assert!(page.more_visible);
    assert_eq!(page.description_lines(), 3);
    assert_eq!(page.more_label(), "more");
    let page = page.more_pressed();
    assert_eq!(page.description_lines(), -1);
    assert_eq!(page.more_label(), "less");
    assert_eq!(page.more_pressed().description_lines(), 3);
    i.description = Some(String::new());
    assert!(build(&id(), &Some(i), &None).description.is_none());
}

#[test]
fn the_series_is_filled_in_when_it_is_known() {
    let mut i = item("Foundation", None, None);
    i.series_name = Some("Foundation".to_string());
    let page = build(&id(), &Some(i), &None);
    assert!(page.wants_series());
    assert_eq!(page.series.as_deref(), Some("Foundation"));
    let info = SeriesInfo { series_name: "Foundation".to_string(), sequence: Some("2".to_string()), total_books: 3 };
    let failed = page.clone().series_resolved(false, &Some(info.clone()));
    assert_eq!(failed.series.as_deref(), Some("Foundation"));
    let unknown = page.clone().series_resolved(true, &None);
    assert_eq!(unknown.series.as_deref(), Some("Foundation"));
    let page = page.series_resolved(true, &Some(info.clone()));
    assert_eq!(page.series.as_deref(), Some("Foundation, 2/3"));
    assert_eq!(page.series_name.as_deref(), Some("Foundation"));
    assert_eq!(series_label(&SeriesInfo { sequence: None, ..info }), "Foundation (3 books)");
}

#[test]
fn a_book_without_a_series_stays_without() {
    let mut i = item("T", None, None);
    i.series_name = Some(String::new());
    let page = build(&id(), &Some(i), &None);
    assert!(!page.wants_series());
    let info = SeriesInfo { series_name: "X".to_string(), sequence: None, total_books: 1 };
    assert!(page.series_resolved(true, &Some(info)).series.is_none());
}

#[test]
fn chapters_show_once_they_are_known() {
    let chapters = vec![chapter("Intro", 0.0, 90.0), chapter("Chapter One", 90.0, 5490.0), chapter("Broken", 20.0, 10.0)];
    let page = build(&id(), &Some(item("T", None, None)), &progress(100.0, false)).chapters_resolved(&chapters, &vec![true]);
    assert!(page.chapters_visible);
    assert_eq!(page.chapters[0].title, "Intro");
    assert_eq!(page.chapters[0].length, "2m");
    assert_eq!(page.chapters[1].length, "1.5h");
    assert_eq!(page.chapters[2].length, "0m");
    assert!(page.chapters[0].downloaded && !page.chapters[1].downloaded);
    assert!(!page.chapters[0].current && page.chapters[1].current);
    assert_eq!(page.current_chapter, 1);
    let page = page.chapters_resolved(&Vec::new(), &Vec::new());
    assert!(!page.chapters_visible && page.chapters.is_empty());
}

#[test]
fn a_position_outside_all_chapters_counts_as_the_first() {
    let chapters = vec![chapter("A", 0.0, 10.0), chapter("B", 10.0, 20.0)];
    assert_eq!(current_chapter_index(&chapters, d(10.0)), 1);
    assert_eq!(current_chapter_index(&chapters, d(20.0)), 0);
    assert_eq!(current_chapter_index(&Vec::new(), d(1.0)), 0);
}

#[test]
fn stored_chapters_stand_in_for_the_server() {
    let (a, b) = (vec![chapter("A", 0.0, 1.0)], vec![chapter("B", 0.0, 1.0)]);
    assert_eq!(chapters_or_stored(Some(a.clone()), Some(b.clone()))[0].title, "A");
    assert_eq!(chapters_or_stored(None, Some(b))[0].title, "B");
    assert!(chapters_or_stored(None, None).is_empty());
}

#[test]
fn lengths_are_hours_or_minutes() {
    assert_eq!(format_duration(d(3600.0)), "1.0h");
    assert_eq!(format_duration(d(3599.0)), "60m");
    assert_eq!(format_duration(d(89.0)), "1m");
    assert_eq!(format_duration(d(90.0)), "2m");
    assert_eq!(format_duration(d(-3.0)), "0m");
    assert_eq!(format_duration(d(36_000.0)), "10.0h");
}
