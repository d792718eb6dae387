use abs_screens::double::Double;
use abs_screens::downloads::ItemDownloadState;
use abs_screens::player::{
    build, build_chapter_row, chapter_start, download_icon, format_hms, format_speed, fraction, is_current, rebuild_chapters_list, scrubbed, sleep_timer_option, speed_reset_needed, step_speed, step_speed_from, ChapterInfo,
    PlayerSnapshot, SleepTimer, SLEEP_TIMER_CHOICES,
};

fn d(x: f64) -> Double {
    Double { bits: x.to_bits() }
}

fn f(x: Double) -> f64 {
    f64::from_bits(x.bits)
}

fn chapter(title: &str, start: f64, end: f64) -> ChapterInfo {
    ChapterInfo { title: title.to_string(), start: d(start), end: d(end) }
}

fn presets() -> Vec<Double> {
    vec![d(0.75), d(1.0), d(1.25), d(1.5), d(1.75), d(2.0)]
}

fn snapshot(position: f64, duration: f64) -> PlayerSnapshot {
    PlayerSnapshot {
        title: "Test Book".to_string(),
        author: Some("Some Author".to_string()),
        is_playing: true,
        position: d(position),
        duration: d(duration),
        speed: d(1.0),
        sleep_timer_active: false,
        cover_path: Some("/covers/item-1".to_string()),
    }
}

#[test]
fn times_are_written_with_hours_only_where_there_are_any() {
    assert_eq!(format_hms(d(0.0)), "0:00");
    assert_eq!(format_hms(d(59.9)), "0:59");
    assert_eq!(format_hms(d(123.0)), "2:03");
    assert_eq!(format_hms(d(3599.999)), "59:59");
    assert_eq!(format_hms(d(3600.0)), "1:00:00");
    assert_eq!(format_hms(d(3723.5)), "1:02:03");
    assert_eq!(format_hms(d(360_000.0)), "100:00:00");
    assert_eq!(format_hms(d(-5.0)), "0:00");
    assert_eq!(format_hms(d(f64::NAN)), "0:00");
}

#[test]
fn speeds_have_a_decimal_at_least() {
    for speed in [0.75f64, 1.0, 1.25, 1.5, 2.0, 3.0, 0.1] {
        let expected = if speed.fract().abs() < f64::EPSILON { format!("{speed:.1}×") } else { format!("{speed}×") };
        assert_eq!(format_speed(d(speed), &format!("{speed}")), expected);
    }
    assert_eq!(format_speed(d(1.0), "1"), "1.0×");
    assert_eq!(format_speed(d(1.25), "1.25"), "1.25×");
}

#[test]
fn the_screen_shows_the_snapshot() {
    let screen = build(&snapshot(30.0, 120.0), "1");
    assert_eq!(screen.title, "Test Book");
    assert_eq!(screen.author, "Some Author");
    assert!(screen.author_visible);
    assert_eq!(screen.play_icon, "media-playback-pause-symbolic");
    assert_eq!(screen.elapsed, "0:30");
    assert_eq!(screen.remaining, "-1:30");
    assert_eq!(f(screen.fraction), 0.25);
    assert_eq!(screen.speed, "1.0×");
    assert!(!screen.sleep_timer_accent);
    assert_eq!(screen.cover_path.as_deref(), Some("/covers/item-1"));
}

#[test]
fn the_screen_shows_a_pause_and_a_missing_author() {
    let mut s = snapshot(200.0, 120.0);
    s.author = None;
    s.is_playing = false;
    s.speed = d(1.5);
    s.sleep_timer_active = true;
    let screen = build(&s, "1.5");
    assert!(!screen.author_visible && screen.author.is_empty());
    assert_eq!(screen.play_icon, "media-playback-start-symbolic");
    assert_eq!(screen.remaining, "-0:00");
    assert_eq!(f(screen.fraction), 1.0);
    assert_eq!(screen.speed, "1.5×");
    assert!(screen.sleep_timer_accent);
    assert_eq!(f(fraction(d(5.0), d(0.0))), 0.0);
}

#[test]
fn chapters_are_listed_and_sought() {
    let chapters = vec![chapter("Intro", 0.0, 4.0), chapter("Chapter One", 4.0, 8.0)];
    let rows = rebuild_chapters_list(&chapters, d(4.0), &vec![true]);
    assert_eq!(rows.len(), 2);
    assert_eq!(rows[0].title, "Intro");
    assert_eq!(rows[1].title, "Chapter One");
    assert_eq!(rows[1].time, "0:04");
    assert!(rows[0].downloaded && !rows[1].downloaded);
    assert!(!rows[0].current && rows[1].current);
    assert_eq!(chapter_start(&chapters, 1).map(f), Some(4.0));
    assert!(chapter_start(&chapters, 2).is_none());
    assert!(is_current(&chapters[0], d(0.0)) && !is_current(&chapters[0], d(f64::NAN)));
    assert!(build_chapter_row(&chapters[0], d(1.0), true).downloaded);
}

#[test]
fn speeds_step_through_the_presets() {
    assert_eq!(step_speed(&presets(), d(1.0), true).map(f), Some(1.25));
    assert_eq!(step_speed(&presets(), d(1.25), true).map(f), Some(1.5));
    assert_eq!(step_speed(&presets(), d(1.5), false).map(f), Some(1.25));
    assert_eq!(step_speed(&presets(), d(1.1), false).map(f), Some(1.0));
    assert!(step_speed(&presets(), d(2.0), true).is_none());
    assert!(step_speed(&presets(), d(0.75), false).is_none());
    assert!(step_speed(&Vec::new(), d(1.0), true).is_none());
}

#[test]
fn with_nothing_loaded_the_speed_steps_from_normal() {
    assert_eq!(step_speed_from(&presets(), None, true).map(f), Some(1.25));
    assert_eq!(step_speed_from(&presets(), None, false).map(f), Some(0.75));
    assert_eq!(step_speed_from(&presets(), Some(d(1.25)), true).map(f), Some(1.5));
    assert!(step_speed_from(&presets(), Some(d(2.0)), true).is_none());
}

#[test]
fn a_reset_at_normal_speed_changes_nothing() {
    assert!(!speed_reset_needed(Some(d(1.0))));
    assert!(speed_reset_needed(Some(d(1.25))));
    assert!(speed_reset_needed(Some(d(0.75))));
    assert!(!speed_reset_needed(None));
}

#[test]
fn the_sleep_timer_has_its_choices() {
    let all: Vec<(String, SleepTimer)> = (0..SLEEP_TIMER_CHOICES).map(sleep_timer_option).collect();
    assert_eq!(
        all,
        vec![
            ("Off".to_string(), SleepTimer::Off),
            ("15 minutes".to_string(), SleepTimer::Minutes(15)),
            ("30 minutes".to_string(), SleepTimer::Minutes(30)),
            ("45 minutes".to_string(), SleepTimer::Minutes(45)),
            ("End of chapter".to_string(), SleepTimer::EndOfChapter),
        ]
    );
}

#[test]
fn the_download_button_follows_the_loaded_item() {
    let (here, there) = (Some("item-1".to_string()), "item-2".to_string());
    let id = "item-1".to_string();
    assert_eq!(download_icon(&here, &id, ItemDownloadState::Complete).as_deref(), Some("emblem-ok-symbolic"));
    assert_eq!(download_icon(&here, &id, ItemDownloadState::Downloading).as_deref(), Some("content-loading-symbolic"));
    assert_eq!(download_icon(&here, &id, ItemDownloadState::Failed).as_deref(), Some("folder-download-symbolic"));
    assert!(download_icon(&here, &there, ItemDownloadState::Complete).is_none());
    assert!(download_icon(&None, &id, ItemDownloadState::Complete).is_none());
}

#[test]
fn following_the_player_does_not_seek() {
    assert!(scrubbed(true, d(4.0)).is_none());
    assert_eq!(scrubbed(false, d(4.0)).map(f), Some(4.0));
}
