use abs_screens::double::Double;
use abs_screens::downloads::{
    build, chapters_label, completed_subtitle, downloading_subtitle, format_bytes, row_action, sample_speed, speed_to_show, DownloadTrack, FoundItem, ItemDownloadState, RowAction, SpeedState,
};

fn d(x: f64) -> Double {
    Double { bits: x.to_bits() }
}

fn f(x: Double) -> f64 {
    f64::from_bits(x.bits)
}

fn s(x: &str) -> String {
    x.to_string()
}

fn track(ino: &str, bytes: i64, complete: bool) -> DownloadTrack {
    DownloadTrack { ino: s(ino), bytes_downloaded: bytes, complete }
}

fn found(id: &str, tracks: Vec<DownloadTrack>, batch: Option<(usize, usize)>) -> FoundItem {
    FoundItem { item_id: s(id), title: format!("Title {id}"), cover_path: Some(format!("/covers/{id}")), tracks, batch }
}

#[test]
fn sizes_are_written_in_decimal_units() {
    assert_eq!(format_bytes(5 * 1024 * 1024), "5.2 MB");
    assert_eq!(format_bytes(999), "999 B");
    assert_eq!(format_bytes(0), "0 B");
    assert_eq!(format_bytes(1_000), "1.0 kB");
    assert_eq!(format_bytes(999_999), "1000.0 kB");
    assert_eq!(format_bytes(1_000_000), "1.0 MB");
    assert_eq!(format_bytes(1_300_000_000), "1.3 GB");
    assert_eq!(format_bytes(u64::MAX), format!("{:.1} GB", u64::MAX as f64 / 1e9));
    for n in [1_049, 1_050, 1_150, 2_349_999, 9_950_000, 123_456_789_012] {
        let expected = if n >= 1_000_000_000 {
            format!("{:.1} GB", n as f64 / 1e9)
        } else if n >= 1_000_000 {
            format!("{:.1} MB", n as f64 / 1e6)
        } else {
            format!("{:.1} kB", n as f64 / 1e3)
        };
        assert_eq!(format_bytes(n), expected);
    }
}

#[test]
fn a_download_in_flight_is_described() {
    assert_eq!(downloading_subtitle(Some((3, 10)), 18_900_000, Some(d(2_200_000.0))), "3/10 chapters · 18.9 MB · 2.2 MB/s");
    assert_eq!(downloading_subtitle(Some((0, 1)), 0, None), "0/1 chapters · 0 B");
    assert_eq!(downloading_subtitle(None, 5, Some(d(0.0))), "5 B");
    assert_eq!(downloading_subtitle(None, 5, Some(d(-1.0))), "5 B");
    assert_eq!(downloading_subtitle(None, 5, Some(d(0.5))), "5 B · 0 B/s");
    assert_eq!(downloading_subtitle(None, 5, Some(d(f64::NAN))), "5 B");
}

#[test]
fn chapters_are_counted_in_words() {
    assert_eq!(chapters_label(1), "1 chapter");
    assert_eq!(chapters_label(10), "10 chapters");
    assert_eq!(chapters_label(0), "0 chapters");
}

#[test]
fn only_complete_chapters_are_summed_up() {
    assert_eq!(completed_subtitle(&vec![track("1", 5, true)]).as_deref(), Some("1 chapter, 5 B"));
    assert_eq!(completed_subtitle(&vec![track("1", 5, true), track("2", 70, false), track("3", -9, true)]).as_deref(), Some("2 chapters, 5 B"));
    assert!(completed_subtitle(&vec![track("1", 5, false)]).is_none());
    assert!(completed_subtitle(&Vec::new()).is_none());
}

#[test]
fn an_empty_tab_says_so() {
    let screen = build();
    let ids = screen.row_ids(&Vec::new());
    assert!(ids.is_empty());
    let screen = screen.refreshed(&ids, &Vec::new(), 0);
    assert!(screen.status_visible && !screen.scroller_visible);
}

#[test]
fn a_download_in_flight_has_a_row_until_it_is_stopped() {
    let id = s("item-1");
    let screen = build().state_changed(&id, ItemDownloadState::Downloading).state_changed(&id, ItemDownloadState::Downloading);
    let ids = screen.row_ids(&Vec::new());
    assert_eq!(ids, vec!["item-1"]);
    let screen = screen.refreshed(&ids, &vec![found("item-1", vec![track("1", 0, false)], Some((0, 1)))], 0);
    assert!(screen.scroller_visible && !screen.status_visible);
    assert!(screen.rows[0].downloading);
    assert_eq!(row_action(&screen.rows[0]), RowAction::Stop);
    assert_eq!(screen.rows[0].title, "Title item-1");
    assert_eq!(screen.rows[0].cover_path.as_deref(), Some("/covers/item-1"));
    assert_eq!(screen.rows[0].subtitle.as_deref(), Some("0/1 chapters · 0 B"));
    for state in [ItemDownloadState::Idle, ItemDownloadState::Stopped, ItemDownloadState::Complete, ItemDownloadState::Failed] {
        let stopped = screen.clone().state_changed(&id, state);
        assert!(stopped.downloading.is_empty());
        let ids = stopped.row_ids(&Vec::new());
        let stopped = stopped.refreshed(&ids, &Vec::new(), 1);
        assert!(stopped.status_visible && stopped.rows.is_empty() && stopped.flights.is_empty());
    }
}

#[test]
fn stopping_keeps_the_complete_chapters() {
    let id = s("item-1");
    let screen = build().state_changed(&id, ItemDownloadState::Downloading);
    let tracks = vec![track("1", 5, true), track("2", 2, false)];
    let ids = screen.row_ids(&vec![s("item-1")]);
    assert_eq!(ids, vec!["item-1"]);
    let screen = screen.refreshed(&ids, &vec![found("item-1", tracks.clone(), Some((1, 2)))], 0);
    assert_eq!(screen.rows[0].subtitle.as_deref(), Some("1/2 chapters · 7 B"));
    let screen = screen.state_changed(&id, ItemDownloadState::Stopped);
    let screen = screen.refreshed(&ids, &vec![found("item-1", tracks, None)], 0);
    assert!(!screen.rows[0].downloading);
    assert_eq!(row_action(&screen.rows[0]), RowAction::Remove);
    assert_eq!(screen.rows[0].subtitle.as_deref(), Some("1 chapter, 5 B"));
}

#[test]
fn downloaded_items_come_before_those_in_flight() {
    let screen = build().state_changed(&s("b"), ItemDownloadState::Downloading).state_changed(&s("c"), ItemDownloadState::Downloading);
    assert_eq!(screen.row_ids(&vec![s("a"), s("b")]), vec!["a", "b", "c"]);
}

#[test]
fn live_texts_are_throttled() {
    let (id, ino) = (s("item-1"), s("1"));
    let screen = build().state_changed(&id, ItemDownloadState::Downloading);
    let ids = screen.row_ids(&Vec::new());
    let screen = screen.refreshed(&ids, &vec![found("item-1", vec![track("1", 100, false), track("2", 50, true)], Some((1, 2)))], 0);
    let (screen, text) = screen.track_progress(&id, &ino, 1_000, 1_000_000_000, Some((1, 2)));
    assert!(text.is_none());
    let (screen, text) = screen.track_progress(&id, &ino, 2_000, 1_100_000_000, Some((1, 2)));
    assert!(text.is_none());
    let (screen, text) = screen.track_progress(&id, &ino, 3_000, 1_200_000_000, Some((1, 2)));
    assert_eq!(text.as_deref(), Some("1/2 chapters · 3.0 kB · 10.0 kB/s"));
    let (screen, text) = screen.track_progress(&id, &ino, 3_500, 1_399_999_999, Some((1, 2)));
    assert!(text.is_none());
    let (screen, _) = screen.track_progress(&id, &ino, 3_600, 1_400_000_000, Some((1, 2)));
    let screen = screen.refreshed(&ids, &vec![found("item-1", vec![track("1", 3_600, false)], Some((1, 2)))], 1_500_000_000);
    assert!(screen.rows[0].subtitle.as_ref().unwrap().ends_with("/s"));
    let screen = screen.refreshed(&ids, &vec![found("item-1", vec![track("1", 3_600, false)], Some((1, 2)))], 3_400_000_000);
    assert_eq!(screen.rows[0].subtitle.as_deref(), Some("1/2 chapters · 3.6 kB"));
}

#[test]
fn progress_without_a_row_writes_no_text() {
    let (id, ino) = (s("x"), s("1"));
    let (screen, _) = build().track_progress(&id, &ino, 1, 0, None);
    let (screen, text) = screen.track_progress(&id, &ino, 2, 5_000_000_000, None);
    assert!(text.is_none());
    assert_eq!(screen.flights.len(), 1);
    let screen = screen.refreshed(&Vec::new(), &Vec::new(), 0);
    assert!(screen.flights.is_empty());
}

#[test]
fn speeds_are_smoothed() {
    let start = SpeedState { ema: d(0.0), last_bytes: 0, last_sample: None, last_label: 0 };
    let a = sample_speed(start, 500, 1_000_000_000);
    assert_eq!((a.last_bytes, a.last_sample), (500, Some(1_000_000_000)));
    assert_eq!(f(a.ema), 0.0);
    let b = sample_speed(a, 1_500, 1_500_000_000);
    assert_eq!(f(b.ema), 2_000.0);
    let c = sample_speed(b, 1_600, 1_800_000_000);
    let elapsed = std::time::Duration::from_nanos(300_000_000).as_secs_f64();
    assert_eq!(f(c.ema), 2_000.0 * 0.5 + (100.0 / elapsed) * 0.5);
    let same_instant = sample_speed(c, 9_999, 1_800_000_000);
    assert_eq!(same_instant.last_bytes, 1_600);
    let backwards = sample_speed(c, 10, 2_800_000_000);
    assert_eq!(f(backwards.ema), f(c.ema) * 0.5);
}

#[test]
fn stale_speeds_are_not_shown() {
    let speed = SpeedState { ema: d(10.0), last_bytes: 0, last_sample: Some(1_000_000_000), last_label: 0 };
    assert_eq!(speed_to_show(&Some(speed), 2_999_999_999).map(f), Some(10.0));
    assert!(speed_to_show(&Some(speed), 3_000_000_000).is_none());
    assert!(speed_to_show(&Some(SpeedState { last_sample: None, ..speed }), 0).is_none());
    assert!(speed_to_show(&Some(SpeedState { ema: d(0.0), ..speed }), 1_000_000_000).is_none());
    assert!(speed_to_show(&None, 0).is_none());
}
