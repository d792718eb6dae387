use abs_screens::double::Double;
use abs_screens::settings::{
    active_account, build, confirm, confirm_disconnect, confirm_remove_server, confirm_sign_out, host_of, server_row, skip_choices, skip_index, skip_labels, speed_index, theme_from_index, theme_index, Account,
    Answer, PlaybackSettings, Saver, Server, ServerEntry, SettingsScreen, Theme,
};

fn d(x: f64) -> Double {
    Double { bits: x.to_bits() }
}

fn presets() -> Vec<Double> {
    vec![d(0.75), d(1.0), d(1.25), d(1.5), d(1.75), d(2.0)]
}

fn defaults() -> PlaybackSettings {
    PlaybackSettings {
        pause_on_headphone_unplug: true,
        resume_on_headphone_replug: false,
        default_speed: d(1.0),
        skip_back_seconds: 15,
        skip_forward_seconds: 30,
        wifi_only_downloads: true,
    }
}

fn account(username: &str, active: bool) -> Account {
    Account { id: username.to_string(), username: username.to_string(), is_active: active }
}

fn entry(url: &str, accounts: Vec<Account>) -> ServerEntry {
    ServerEntry { server: Server { id: url.to_string(), url: url.to_string() }, accounts }
}

fn servers() -> Vec<ServerEntry> {
    vec![entry("http://127.0.0.1:1", vec![account("jane", true)]), entry("http://127.0.0.1:2", vec![account("bob", false)])]
}

fn screen() -> SettingsScreen {
    build(defaults(), Theme::System, &servers(), presets(), d(1.0))
}

#[test]
fn the_headphone_switches_reach_the_settings() {
    let s = screen();
    assert!(s.settings.pause_on_headphone_unplug && !s.settings.resume_on_headphone_replug && s.resume_sensitive);
    let (s, start) = s.pause_switched(false);
    assert!(start && !s.resume_sensitive);
    let (s, start) = s.resume_switched(true);
    assert!(!start);
    assert!(!s.settings.pause_on_headphone_unplug && s.settings.resume_on_headphone_replug);
    assert_eq!(s.saver.pending, Some(s.settings));
}

#[test]
fn the_rows_start_at_the_defaults() {
    let s = screen();
    assert_eq!(s.speed_row, 1);
    assert_eq!(s.skip_back_row, 2);
    assert_eq!(s.skip_forward_row, 4);
    assert!(s.settings.wifi_only_downloads);
    assert_eq!(theme_index(s.theme), 0);
}

#[test]
fn picked_rows_become_settings() {
    let (s, _) = screen().speed_picked(3);
    let (s, _) = s.skip_back_picked(0);
    let (s, _) = s.skip_forward_picked(6);
    let (s, _) = s.wifi_only_switched(false);
    let (s, theme) = s.theme_picked(2);
    assert_eq!(s.settings.default_speed, d(1.5));
    assert_eq!((s.settings.skip_back_seconds, s.settings.skip_forward_seconds), (5, 60));
    assert!(!s.settings.wifi_only_downloads);
    assert_eq!(theme, Theme::Dark);
    assert_eq!((s.speed_row, s.skip_back_row, s.skip_forward_row), (3, 0, 6));
}

#[test]
fn unknown_values_fall_back_to_a_row() {
    let odd = PlaybackSettings { default_speed: d(1.1), skip_back_seconds: 7, skip_forward_seconds: -1, ..defaults() };
    let s = build(odd, Theme::Dark, &servers(), presets(), d(1.0));
    assert_eq!((s.speed_row, s.skip_back_row, s.skip_forward_row), (1, 2, 4));
    assert_eq!(speed_index(&Vec::new(), d(1.0), d(1.0)), 0);
    assert_eq!(speed_index(&presets(), d(9.0), d(8.0)), 0);
    assert_eq!(speed_index(&presets(), d(2.0), d(1.0)), 5);
    assert_eq!(skip_index(45, 15), 5);
    assert_eq!(skip_index(7, 8), 0);
}

#[test]
fn the_account_and_the_servers_show() {
    let s = screen();
    assert_eq!(s.account_title, "jane");
    assert_eq!(s.account_subtitle, "127.0.0.1:1 · active");
    assert_eq!(s.server_rows.len(), 2);
    assert_eq!(s.server_rows[0].title, "127.0.0.1:1");
    assert_eq!(s.server_rows[0].subtitle, "jane · active");
    assert_eq!(s.server_rows[1].title, "127.0.0.1:2");
    assert_eq!(s.server_rows[1].subtitle, "bob");
    assert!(!s.server_rows[0].can_switch && s.server_rows[0].can_sign_out);
    assert!(s.server_rows[1].can_switch && s.server_rows[1].can_sign_out);
    let bare = server_row(&entry("https://x.y/z", Vec::new()));
    assert_eq!(bare.subtitle, "No signed-in account");
    assert!(!bare.can_switch && !bare.can_sign_out);
}

#[test]
fn the_first_active_account_counts() {
    let all = vec![entry("a", vec![account("x", false)]), entry("b", vec![account("y", false), account("z", true)]), entry("c", vec![account("w", true)])];
    assert_eq!(active_account(&all), Some((1, 1)));
    assert_eq!(active_account(&vec![entry("a", vec![account("x", false)])]), None);
}

#[test]
fn hosts_are_cut_out_of_urls() {
    assert_eq!(host_of("https://library.example/abs"), "library.example");
    assert_eq!(host_of("http://127.0.0.1:13378"), "127.0.0.1:13378");
    assert_eq!(host_of("library.example/abs"), "library.example");
    assert_eq!(host_of("://x"), "x");
    assert_eq!(host_of("a:/b"), "a:");
    assert_eq!(host_of(""), "");
    for url in ["https://a.b/c://d", "x://", "//h/p", "http:///p", "ü://ä/ö"] {
        let rest = url.split_once("://").map(|(_, rest)| rest).unwrap_or(url);
        assert_eq!(host_of(url), rest.split('/').next().unwrap());
    }
}

#[test]
fn losing_something_is_asked_for() {
    let c = confirm_sign_out("jane");
    assert_eq!(c.heading, "Sign out of jane?");
    assert!(c.body.starts_with("jane's listening progress and bookmarks stored on this device will be removed"));
    assert_eq!(c.label, "Sign Out");
    let c = confirm_disconnect("https://library.example/abs", "jane");
    assert_eq!(c.heading, "Disconnect from library.example?");
    assert_eq!(c.label, "Disconnect");
    let c = confirm_remove_server("https://library.example/abs");
    assert_eq!(c.heading, "Remove library.example?");
    assert_eq!(c.label, "Remove Server");
    assert!(confirm(Answer::Affirmative) && !confirm(Answer::Cancel) && !confirm(Answer::Closed));
}

#[test]
fn skips_have_labels() {
    assert_eq!(skip_choices(), vec![5, 10, 15, 20, 30, 45, 60]);
    assert_eq!(skip_labels(), vec!["5 sec", "10 sec", "15 sec", "20 sec", "30 sec", "45 sec", "60 sec"]);
}

#[test]
fn themes_and_rows_correspond() {
    for theme in [Theme::System, Theme::Light, Theme::Dark] {
        assert_eq!(theme_from_index(theme_index(theme)), theme);
    }
    assert_eq!(theme_from_index(77), Theme::System);
}

#[test]
fn one_writer_stores_the_last_change() {
    let (a, b, c) = (defaults(), PlaybackSettings { skip_back_seconds: 5, ..defaults() }, PlaybackSettings { skip_back_seconds: 10, ..defaults() });
    let (saver, start) = Saver::new().submit(a);
    assert!(start);
    let (saver, next) = saver.take_pending();
    assert_eq!(next, Some(a));
    let (saver, start) = saver.submit(b);
    assert!(!start);
    let (saver, start) = saver.submit(c);
    assert!(!start);
    let (saver, next) = saver.take_pending();
    assert_eq!(next, Some(c));
    let (saver, next) = saver.take_pending();
    assert_eq!(next, None);
    assert!(!saver.running);
    assert!(saver.submit(a).1);
}

#[test]
fn the_writer_of_the_tab_stores_until_nothing_waits() {
    let (s, start) = screen().wifi_only_switched(false);
    assert!(start);
    let (s, next) = s.writer_asks();
    assert!(!next.unwrap().wifi_only_downloads);
    let (s, next) = s.writer_asks();
    assert!(next.is_none() && !s.saver.running);
}
