use abs_screens::download_sheet::{estimate_bytes_for, estimate_label, is_blocked, tap, DownloadScope, DownloadSheet, SheetAction, SheetEntry, DEFAULT_NEXT_COUNT};

fn sheet(chapters: usize, current: usize) -> DownloadSheet {
    DownloadSheet::populate(DEFAULT_NEXT_COUNT, chapters, current, None, false, false, None, None, None)
}

fn texts(sheet: &DownloadSheet) -> Vec<Option<String>> {
    sheet.rows().into_iter().map(|r| r.subtitle).collect()
}

#[test]
fn the_stepper_starts_at_ten_and_is_held_to_what_is_left() {
    let mut s = sheet(10, 0);
    assert_eq!(s.next_count, 9);
    assert_eq!(s.stepped_up().next_count, 9);
    for expected in (1..9).rev() {
        s = s.stepped_down();
        assert_eq!(s.next_count, expected);
    }
    s = s.stepped_down();
    assert_eq!(s.next_count, 1);
    assert_eq!(s.stepped_up().next_count, 2);
    assert_eq!(sheet(100, 0).next_count, 10);
    assert_eq!(sheet(100, 0).stepped_up().next_count, 11);
}

#[test]
fn the_next_chapters_row_uses_the_stepper_count() {
    let s = sheet(2, 0);
    assert_eq!(s.next_count, 1);
    let rows = s.rows();
    assert_eq!(rows[1].action, SheetAction::Download(DownloadScope::NextChapters(1)));
    assert!(rows[1].sensitive);
    let last = sheet(2, 1).rows();
    assert!(!last[1].sensitive);
    assert_eq!(sheet(0, 0).next_count, 1);
    assert!(!sheet(0, 0).rows()[1].sensitive);
    assert_eq!(DownloadSheet::populate(0, 5, 0, None, false, false, None, None, None).next_count, 1);
}

#[test]
fn estimates_follow_the_stepper() {
    let s = DownloadSheet::populate(10, 3, 0, None, false, false, Some(1_000_000), Some(7_000_000), Some(7_000_000));
    assert_eq!(s.next_count, 2);
    let s = s.next_estimated(Some(6_000_000));
    assert_eq!(texts(&s), vec![Some("≈1.0 MB".to_string()), Some("≈6.0 MB".to_string()), Some("≈7.0 MB".to_string()), Some("≈7.0 MB".to_string())]);
    let s = s.stepped_down();
    assert_eq!(s.next_count, 1);
    assert_eq!(texts(&s)[1], None);
    let s = s.next_estimated(Some(2_000_000));
    assert_eq!(texts(&s)[1].as_deref(), Some("≈2.0 MB"));
}

#[test]
fn rows_are_blocked_without_enough_space() {
    let s = DownloadSheet::populate(10, 3, 0, Some(10), false, false, Some(1_000_000), Some(7_000_000), Some(7_000_000)).next_estimated(Some(6_000_000));
    for row in s.rows() {
        assert!(row.blocked);
        assert_eq!(row.subtitle.as_deref(), Some("Not enough free space"));
        let tapped = tap(&row);
        assert!(tapped.action.is_none() && !tapped.closes);
        assert_eq!(tapped.toast, "Not enough free space");
    }
    assert!(!is_blocked(Some(10), Some(10)));
    assert!(is_blocked(Some(11), Some(10)));
    assert!(!is_blocked(None, Some(0)));
    assert!(!is_blocked(Some(u64::MAX), None));
    assert!(estimate_label(None, Some(0)).is_none());
}

#[test]
fn stopping_and_clearing_are_offered_where_they_make_sense() {
    let s = DownloadSheet::populate(1, 3, 0, None, true, true, None, None, None);
    let labels: Vec<String> = s.rows().into_iter().map(|r| r.label).collect();
    assert_eq!(labels, vec!["Stop download", "Current chapter", "Next chapters", "Remaining chapters", "Entire book", "Clear downloaded chapters"]);
    let rows = s.rows();
    assert_eq!(tap(&rows[0]).action, Some(SheetAction::Stop));
    assert_eq!(tap(&rows[0]).toast, "Download stopped");
    assert_eq!(tap(&rows[4]).action, Some(SheetAction::Download(DownloadScope::EntireBook)));
    assert_eq!(tap(&rows[4]).toast, "Download started");
    assert_eq!(tap(&rows[5]).toast, "Downloaded chapters cleared");
    assert!(tap(&rows[5]).closes);
    assert_eq!(sheet(3, 0).rows().len(), 4);
}

#[test]
fn a_book_without_chapters_is_estimated_as_a_whole() {
    assert_eq!(estimate_bytes_for(&vec![Some(1), Some(2)], 0, &Vec::new(), None), Some(3));
    assert_eq!(estimate_bytes_for(&vec![Some(1), None], 0, &Vec::new(), Some(9)), None);
    assert_eq!(estimate_bytes_for(&Vec::new(), 0, &Vec::new(), Some(9)), None);
    assert_eq!(estimate_bytes_for(&vec![None], 3, &vec![1], Some(9)), Some(9));
    assert_eq!(estimate_bytes_for(&vec![Some(1)], 3, &Vec::new(), Some(9)), None);
}

#[test]
fn a_heading_is_above_the_rows() {
    let s = DownloadSheet::populate(DEFAULT_NEXT_COUNT, 5, 0, None, true, true, None, None, None);
    let texts: Vec<String> = s
        .entries()
        .into_iter()
        .map(|entry| match entry {
            SheetEntry::Heading(text) => format!("# {text}"),
            SheetEntry::Row(row) => row.label,
        })
        .collect();
    assert_eq!(
        texts,
        vec!["# Download book", "Stop download", "Current chapter", "Next chapters", "Remaining chapters", "Entire book", "Clear downloaded chapters"]
    );
    assert_eq!(sheet(3, 0).entries().len(), 5);
}
