//! The sheet that downloads a book or a part of it.
use crate::downloads::{bytes_text, format_bytes};
use crate::sync::text_view;
use vstd::prelude::*;

verus! {

/// What a download fetches.
#[derive(Clone, Copy, Debug, PartialEq, Eq, Structural)]
pub enum DownloadScope {
    CurrentChapter,
    NextChapters(u32),
    RemainingChapters,
    EntireBook,
}

/// How many chapters the sheet offers to fetch when it opens.
pub const DEFAULT_NEXT_COUNT: u32 = 10;

/// The known sizes summed up; an unknown one counts as none.
pub open spec fn sum_sizes(sizes: Seq<Option<u64>>) -> nat
    decreases sizes.len(),
{
    if sizes.len() == 0 {
        0
    } else {
        sum_sizes(sizes.drop_last()) + match sizes.last() {
            Some(size) => size as nat,
            None => 0,
        }
    }
}

/// Whether every size is known.
pub open spec fn all_known(sizes: Seq<Option<u64>>) -> bool {
    forall|i: int| 0 <= i < sizes.len() ==> (#[trigger] sizes[i]) is Some
}

/// The bytes of the whole book, where it has tracks and every size is known.
pub open spec fn book_bytes(sizes: Seq<Option<u64>>) -> Option<nat> {
    if sizes.len() > 0 && all_known(sizes) {
        Some(sum_sizes(sizes))
    } else {
        None
    }
}

proof fn lemma_sum_sizes_take(sizes: Seq<Option<u64>>, n: int)
    requires
        0 <= n <= sizes.len(),
    ensures
        sum_sizes(sizes.take(n)) <= sum_sizes(sizes),
    decreases sizes.len(),
{
    if n == sizes.len() {
        assert(sizes.take(n) =~= sizes);
    } else {
        assert(sizes.drop_last().take(n) =~= sizes.take(n));
        lemma_sum_sizes_take(sizes.drop_last(), n);
    }
}

/// How many bytes a download would fetch; none where that cannot be told
/// honestly. Without chapters every scope is the whole book. With chapters,
/// `indices` are those of the scope, and `chapter_estimate` is the estimate for
/// them; a scope without chapters has none.
pub fn estimate_bytes_for(
    sizes: &Vec<Option<u64>>,
    chapter_count: usize,
    indices: &Vec<usize>,
    chapter_estimate: Option<u64>,
) -> (r: Option<u64>)
    requires
        chapter_count == 0 ==> sum_sizes(sizes@) <= u64::MAX,
    ensures
        chapter_count == 0 ==> match r {
            Some(bytes) => book_bytes(sizes@) == Some(bytes as nat),
            None => book_bytes(sizes@) is None,
        },
        chapter_count > 0 && indices.len() == 0 ==> r is None,
        chapter_count > 0 && indices.len() > 0 ==> r == chapter_estimate,
{
    if chapter_count == 0 {
        if sizes.len() == 0 {
            return None;
        }
        let mut sum: u64 = 0;
        let mut n: usize = 0;
        while n < sizes.len()
            invariant
                n <= sizes.len(),
                chapter_count == 0,
                sum_sizes(sizes@) <= u64::MAX,
                sum == sum_sizes(sizes@.take(n as int)),
                forall|i: int| 0 <= i < n ==> (#[trigger] sizes[i]) is Some,
            decreases sizes.len() - n,
        {
            proof {
                let next = sizes@.take(n + 1);
                assert(next.drop_last() =~= sizes@.take(n as int));
                assert(next.last() == sizes[n as int]);
                lemma_sum_sizes_take(sizes@, n + 1);
            }
            match sizes[n] {
                Some(size) => {
                    sum = sum + size;
                },
                None => {
                    assert(!all_known(sizes@));
                    return None;
                },
            }
            n = n + 1;
        }
        assert(sizes@.take(n as int) =~= sizes@);
        return Some(sum);
    }
    if indices.len() == 0 {
        None
    } else {
        chapter_estimate
    }
}

/// Whether an estimate exceeds the free space. What is unknown never blocks.
pub open spec fn exceeds(estimate: Option<u64>, free_space: Option<u64>) -> bool {
    match (estimate, free_space) {
        (Some(bytes), Some(free)) => bytes > free,
        _ => false,
    }
}

/// Whether an estimate exceeds the free space.
pub fn is_blocked(estimate: Option<u64>, free_space: Option<u64>) -> (r: bool)
    ensures
        r == exceeds(estimate, free_space),
{
    match (estimate, free_space) {
        (Some(bytes), Some(free)) => bytes > free,
        _ => false,
    }
}

/// The chapters after the current one.
pub open spec fn chapters_after(chapter_count: usize, current: usize) -> nat {
    if chapter_count > current {
        (chapter_count - current - 1) as nat
    } else {
        0
    }
}

/// The most that the stepper goes up to.
pub open spec fn ceiling(chapter_count: usize, current: usize) -> nat {
    if chapters_after(chapter_count, current) > 1 {
        chapters_after(chapter_count, current)
    } else {
        1
    }
}

/// A count held between one and a limit.
pub open spec fn held(count: int, most: int) -> int {
    if count < 1 {
        1
    } else if count > most {
        most
    } else {
        count
    }
}

/// A count inside its limits is kept; any other comes to the limit that it is beyond,
/// and holding it again changes nothing.
pub proof fn law_held(count: int, most: int)
    requires
        1 <= most,
    ensures
        1 <= held(count, most) <= most,
        1 <= count <= most ==> held(count, most) == count,
        count <= 1 ==> held(count, most) == 1,
        count >= most ==> held(count, most) == most,
        held(held(count, most), most) == held(count, most),
{
}

/// One step down from a count, to one at least.
pub open spec fn one_less(count: int) -> int {
    if count > 1 {
        count - 1
    } else {
        1
    }
}

/// One step up from a count, to a limit at most.
pub open spec fn one_more(count: int, most: int) -> int {
    if count < most {
        count + 1
    } else {
        count
    }
}

/// Inside its limits a step of the stepper undoes the opposite one; at a limit
/// it changes nothing.
pub proof fn law_steps(count: int, most: int)
    requires
        1 <= count <= most,
    ensures
        1 <= one_less(count) <= most,
        1 <= one_more(count, most) <= most,
        count < most ==> one_less(one_more(count, most)) == count,
        count > 1 ==> one_more(one_less(count), most) == count,
        one_less(1) == 1,
        one_more(most, most) == most,
{
}

/// The state of the sheet.
#[derive(Clone, Copy, Debug, PartialEq, Eq, Structural)]
pub struct DownloadSheet {
    pub chapter_count: usize,
    pub current: usize,
    pub free_space: Option<u64>,
    /// Whether a download of the book is in flight.
    pub downloading: bool,
    /// Whether any of the book is downloaded.
    pub anything_downloaded: bool,
    /// What the stepper stands at.
    pub next_count: u32,
    pub current_estimate: Option<u64>,
    /// The estimate for the chapters that the stepper stands at.
    pub next_estimate: Option<u64>,
    pub remaining_estimate: Option<u64>,
    pub book_estimate: Option<u64>,
}

/// What a row of the sheet does.
#[derive(Clone, Copy, Debug, PartialEq, Eq, Structural)]
pub enum SheetAction {
    Stop,
    Download(DownloadScope),
    Clear,
}

/// A row of the sheet.
#[derive(Clone, Debug)]
pub struct SheetRow {
    pub label: String,
    pub action: SheetAction,
    pub subtitle: Option<String>,
    /// Whether there is not enough free space for it.
    pub blocked: bool,
    pub sensitive: bool,
}

/// A row of the sheet.
pub struct SheetRowView {
    pub label: Seq<char>,
    pub action: SheetAction,
    pub subtitle: Option<Seq<char>>,
    pub blocked: bool,
    pub sensitive: bool,
}

impl View for SheetRow {
    type V = SheetRowView;

    open spec fn view(&self) -> SheetRowView {
        SheetRowView {
            label: self.label@,
            action: self.action,
            subtitle: text_view(self.subtitle),
            blocked: self.blocked,
            sensitive: self.sensitive,
        }
    }
}

/// The rows of the sheet.
pub open spec fn sheet_row_views(rows: Seq<SheetRow>) -> Seq<SheetRowView> {
    rows.map_values(|r: SheetRow| r@)
}

/// The text below a scope: what it would fetch, or that there is no space for it.
pub open spec fn estimate_text(estimate: Option<u64>, free_space: Option<u64>) -> Option<Seq<char>> {
    match estimate {
        Some(bytes) => Some(
            if exceeds(estimate, free_space) {
                "Not enough free space"@
            } else {
                "≈"@ + bytes_text(bytes as nat)
            },
        ),
        None => None,
    }
}

/// The text below a scope.
pub fn estimate_label(estimate: Option<u64>, free_space: Option<u64>) -> (r: Option<String>)
    ensures
        text_view(r) == estimate_text(estimate, free_space),
{
    match estimate {
        Some(bytes) => {
            if is_blocked(estimate, free_space) {
                Some(String::from_str("Not enough free space"))
            } else {
                let size = format_bytes(bytes);
                Some(String::from_str("≈").concat(size.as_str()))
            }
        },
        None => None,
    }
}

/// The row of a scope.
pub open spec fn scope_row(
    label: Seq<char>,
    scope: DownloadScope,
    estimate: Option<u64>,
    free_space: Option<u64>,
    sensitive: bool,
) -> SheetRowView {
    SheetRowView {
        label,
        action: SheetAction::Download(scope),
        subtitle: estimate_text(estimate, free_space),
        blocked: exceeds(estimate, free_space),
        sensitive,
    }
}

fn make_scope_row(
    label: &str,
    scope: DownloadScope,
    estimate: Option<u64>,
    free_space: Option<u64>,
    sensitive: bool,
) -> (r: SheetRow)
    ensures
        r@ == scope_row(label@, scope, estimate, free_space, sensitive),
{
    SheetRow {
        label: String::from_str(label),
        action: SheetAction::Download(scope),
        subtitle: estimate_label(estimate, free_space),
        blocked: is_blocked(estimate, free_space),
        sensitive,
    }
}

/// The four scopes of the sheet.
pub open spec fn scope_rows(sheet: DownloadSheet) -> Seq<SheetRowView> {
    let free = sheet.free_space;
    seq![
        scope_row("Current chapter"@, DownloadScope::CurrentChapter, sheet.current_estimate, free, true),
        scope_row(
            "Next chapters"@,
            DownloadScope::NextChapters(sheet.next_count),
            sheet.next_estimate,
            free,
            chapters_after(sheet.chapter_count, sheet.current) > 0,
        ),
        scope_row("Remaining chapters"@, DownloadScope::RemainingChapters, sheet.remaining_estimate, free, true),
        scope_row("Entire book"@, DownloadScope::EntireBook, sheet.book_estimate, free, true),
    ]
}

/// A row that does something else than fetch.
pub open spec fn plain_row(label: Seq<char>, action: SheetAction) -> SheetRowView {
    SheetRowView { label, action, subtitle: None, blocked: false, sensitive: true }
}

/// The rows of the sheet: first to stop what is in flight, last to clear what is
/// downloaded, where there is any.
pub open spec fn sheet_rows(sheet: DownloadSheet) -> Seq<SheetRowView> {
    let stop = if sheet.downloading {
        seq![plain_row("Stop download"@, SheetAction::Stop)]
    } else {
        seq![]
    };
    let clear = if sheet.anything_downloaded {
        seq![plain_row("Clear downloaded chapters"@, SheetAction::Clear)]
    } else {
        seq![]
    };
    stop + scope_rows(sheet) + clear
}

/// What the sheet holds: its heading, or a row.
#[derive(Clone, Debug)]
pub enum SheetEntry {
    Heading(String),
    Row(SheetRow),
}

/// What the sheet holds.
pub enum SheetEntryView {
    Heading(Seq<char>),
    Row(SheetRowView),
}

impl View for SheetEntry {
    type V = SheetEntryView;

    open spec fn view(&self) -> SheetEntryView {
        match self {
            SheetEntry::Heading(text) => SheetEntryView::Heading(text@),
            SheetEntry::Row(row) => SheetEntryView::Row(row@),
        }
    }
}

/// The views of what the sheet holds.
pub open spec fn entry_views(entries: Seq<SheetEntry>) -> Seq<SheetEntryView> {
    entries.map_values(|e: SheetEntry| e@)
}

/// Rows as what the sheet holds.
pub open spec fn row_entries(rows: Seq<SheetRowView>) -> Seq<SheetEntryView> {
    rows.map_values(|r: SheetRowView| SheetEntryView::Row(r))
}

/// All that the sheet holds, from top to bottom: the heading and the rows.
pub open spec fn sheet_entries(sheet: DownloadSheet) -> Seq<SheetEntryView> {
    seq![SheetEntryView::Heading("Download book"@)] + row_entries(sheet_rows(sheet))
}

/// What a tap on a row leads to.
#[derive(Clone, Debug)]
pub struct Tapped {
    /// What is to be done; nothing where the row is blocked.
    pub action: Option<SheetAction>,
    /// Whether the sheet closes.
    pub closes: bool,
    pub toast: String,
}

impl DownloadSheet {
    /// The stepper stands between one and the chapters that are left.
    pub open spec fn well_formed(self) -> bool {
        &&& self.chapter_count <= u32::MAX
        &&& self.current < usize::MAX
        &&& 1 <= self.next_count <= ceiling(self.chapter_count, self.current)
    }

    /// Fills the sheet. The stepper's count, as the user left it, is held to the
    /// chapters that are left; the estimate for it is to follow.
    pub fn populate(
        next_count: u32,
        chapter_count: usize,
        current: usize,
        free_space: Option<u64>,
        downloading: bool,
        anything_downloaded: bool,
        current_estimate: Option<u64>,
        remaining_estimate: Option<u64>,
        book_estimate: Option<u64>,
    ) -> (r: DownloadSheet)
        requires
            chapter_count <= u32::MAX,
            current < usize::MAX,
        ensures
            r.well_formed(),
            r.next_count == held(next_count as int, ceiling(chapter_count, current) as int),
            r == (DownloadSheet {
                chapter_count,
                current,
                free_space,
                downloading,
                anything_downloaded,
                next_count: r.next_count,
                current_estimate,
                next_estimate: None,
                remaining_estimate,
                book_estimate,
            }),
    {
        let most: u32 = most_chapters(chapter_count, current);
        let held: u32 = if next_count < 1 {
            1
        } else if next_count > most {
            most
        } else {
            next_count
        };
        DownloadSheet {
            chapter_count,
            current,
            free_space,
            downloading,
            anything_downloaded,
            next_count: held,
            current_estimate,
            next_estimate: None,
            remaining_estimate,
            book_estimate,
        }
    }

    /// The estimate for the chapters that the stepper stands at.
    pub fn next_estimated(self, estimate: Option<u64>) -> (r: DownloadSheet)
        ensures
            r == (DownloadSheet { next_estimate: estimate, ..self }),
            self.well_formed() ==> r.well_formed(),
    {
        DownloadSheet { next_estimate: estimate, ..self }
    }

    /// The stepper goes down, to one at least; the estimate is to follow.
    pub fn stepped_down(self) -> (r: DownloadSheet)
        requires
            self.well_formed(),
        ensures
            r.well_formed(),
            r == (DownloadSheet { next_count: r.next_count, next_estimate: None, ..self }),
            r.next_count == one_less(self.next_count as int),
    {
        let next_count: u32 = if self.next_count > 1 {
            self.next_count - 1
        } else {
            1
        };
        DownloadSheet { next_count, next_estimate: None, ..self }
    }

    /// The stepper goes up, to the chapters that are left at most; the estimate
    /// is to follow.
    pub fn stepped_up(self) -> (r: DownloadSheet)
        requires
            self.well_formed(),
        ensures
            r.well_formed(),
            r == (DownloadSheet { next_count: r.next_count, next_estimate: None, ..self }),
            r.next_count == one_more(self.next_count as int, ceiling(self.chapter_count, self.current) as int),
    {
        let most: u32 = most_chapters(self.chapter_count, self.current);
        let next_count: u32 = if self.next_count < most {
            self.next_count + 1
        } else {
            self.next_count
        };
        DownloadSheet { next_count, next_estimate: None, ..self }
    }

    /// The rows of the sheet.
    pub fn rows(&self) -> (r: Vec<SheetRow>)
        requires
            self.current < usize::MAX,
        ensures
            sheet_row_views(r@) == sheet_rows(*self),
    {
        let mut rows: Vec<SheetRow> = Vec::new();
        let free = self.free_space;
        if self.downloading {
            rows.push(
                SheetRow {
                    label: String::from_str("Stop download"),
                    action: SheetAction::Stop,
                    subtitle: None,
                    blocked: false,
                    sensitive: true,
                },
            );
        }
        rows.push(
            make_scope_row("Current chapter", DownloadScope::CurrentChapter, self.current_estimate, free, true),
        );
        let left: bool = self.chapter_count > self.current && self.chapter_count - self.current > 1;
        rows.push(
            make_scope_row(
                "Next chapters",
                DownloadScope::NextChapters(self.next_count),
                self.next_estimate,
                free,
                left,
            ),
        );
        rows.push(
            make_scope_row(
                "Remaining chapters",
                DownloadScope::RemainingChapters,
                self.remaining_estimate,
                free,
                true,
            ),
        );
        rows.push(make_scope_row("Entire book", DownloadScope::EntireBook, self.book_estimate, free, true));
        if self.anything_downloaded {
            rows.push(
                SheetRow {
                    label: String::from_str("Clear downloaded chapters"),
                    action: SheetAction::Clear,
                    subtitle: None,
                    blocked: false,
                    sensitive: true,
                },
            );
        }
        assert(sheet_row_views(rows@) =~= sheet_rows(*self));
        rows
    }

    /// All that the sheet holds, from top to bottom.
    pub fn entries(&self) -> (r: Vec<SheetEntry>)
        requires
            self.current < usize::MAX,
        ensures
            entry_views(r@) == sheet_entries(*self),
    {
        let mut left = self.rows();
        let mut entries: Vec<SheetEntry> = Vec::new();
        entries.push(SheetEntry::Heading(String::from_str("Download book")));
        assert(entry_views(entries@) + row_entries(sheet_row_views(left@)) =~= sheet_entries(*self));
        while left.len() > 0
            invariant
                entry_views(entries@) + row_entries(sheet_row_views(left@)) == sheet_entries(*self),
            decreases left.len(),
        {
            let ghost (done, rest) = (entries@, left@);
            let row = left.remove(0);
            entries.push(SheetEntry::Row(row));
            assert(entry_views(entries@) =~= entry_views(done).push(SheetEntryView::Row(rest[0]@)));
            assert(row_entries(sheet_row_views(rest)) =~= seq![SheetEntryView::Row(rest[0]@)] + row_entries(
                sheet_row_views(left@),
            ));
            assert(entry_views(entries@) + row_entries(sheet_row_views(left@)) =~= entry_views(done) + row_entries(
                sheet_row_views(rest),
            ));
        }
        assert(entry_views(entries@) + row_entries(sheet_row_views(left@)) =~= entry_views(entries@));
        entries
    }
}

fn most_chapters(chapter_count: usize, current: usize) -> (r: u32)
    requires
        chapter_count <= u32::MAX,
        current < usize::MAX,
    ensures
        r == ceiling(chapter_count, current),
        r < u32::MAX,
{
    if chapter_count > current && chapter_count - current - 1 > 1 {
        (chapter_count - current - 1) as u32
    } else {
        1
    }
}

/// A tap on a row. A blocked one only says that there is not enough space.
pub fn tap(row: &SheetRow) -> (r: Tapped)
    ensures
        r.action == if row.blocked {
            None
        } else {
            Some(row.action)
        },
        r.closes == !row.blocked,
        r.toast@ == if row.blocked {
            "Not enough free space"@
        } else {
            match row.action {
                SheetAction::Stop => "Download stopped"@,
                SheetAction::Download(_) => "Download started"@,
                SheetAction::Clear => "Downloaded chapters cleared"@,
            }
        },
{
    if row.blocked {
        return Tapped { action: None, closes: false, toast: String::from_str("Not enough free space") };
    }
    let toast = match row.action {
        SheetAction::Stop => String::from_str("Download stopped"),
        SheetAction::Download(_) => String::from_str("Download started"),
        SheetAction::Clear => String::from_str("Downloaded chapters cleared"),
    };
    Tapped { action: Some(row.action), closes: true, toast }
}

/// A row is blocked exactly where it says that there is not enough space, and
/// never where the size or the free space is unknown.
pub proof fn law_blocked_says_so(label: Seq<char>, scope: DownloadScope, estimate: Option<u64>, free_space: Option<u64>)
    ensures
        ({
            let row = scope_row(label, scope, estimate, free_space, true);
            &&& row.blocked <==> row.subtitle == Some("Not enough free space"@)
            &&& estimate is None || free_space is None ==> !row.blocked
            &&& row.subtitle is None <==> estimate is None
        }),
{
    let row = scope_row(label, scope, estimate, free_space, true);
    if !row.blocked && estimate is Some {
        let text = row.subtitle->0;
        reveal_strlit("≈");
        reveal_strlit("Not enough free space");
        assert(text[0] == '≈');
        assert("Not enough free space"@[0] == 'N');
    }
}

/// The scopes are always on the sheet, in their order; stopping comes before
/// them and clearing after them, each only where there is something to stop or
/// to clear.
pub proof fn law_sheet_layout(sheet: DownloadSheet)
    ensures
        ({
            let rows = sheet_rows(sheet);
            let first: int = if sheet.downloading {
                1
            } else {
                0
            };
            &&& rows.len() == first + 4 + if sheet.anything_downloaded {
                1int
            } else {
                0
            }
            &&& rows.subrange(first, first + 4) == scope_rows(sheet)
            &&& forall|i: int|
                0 <= i < rows.len() ==> ((#[trigger] rows[i]).action == SheetAction::Stop <==> i < first)
            &&& forall|i: int|
                0 <= i < rows.len() ==> ((#[trigger] rows[i]).action == SheetAction::Clear <==> i >= first + 4)
        }),
{
    let rows = sheet_rows(sheet);
    let first: int = if sheet.downloading {
        1
    } else {
        0
    };
    assert(rows.subrange(first, first + 4) =~= scope_rows(sheet));
}

/// The sizes of tracks add up; an unknown one adds nothing.
pub proof fn law_sizes_add_up(a: Seq<Option<u64>>, b: Seq<Option<u64>>, size: u64)
    ensures
        sum_sizes(a + b) == sum_sizes(a) + sum_sizes(b),
        sum_sizes(seq![Some(size)]) == size,
        sum_sizes(seq![None::<u64>]) == 0,
    decreases b.len(),
{
    let (known, unknown) = (seq![Some(size)], seq![None::<u64>]);
    assert(known.drop_last() =~= Seq::empty() && unknown.drop_last() =~= Seq::empty());
    assert(sum_sizes(known.drop_last()) == 0 && sum_sizes(unknown.drop_last()) == 0);
    if b.len() == 0 {
        assert(a + b =~= a);
    } else {
        law_sizes_add_up(a, b.drop_last(), size);
        assert((a + b).drop_last() =~= a + b.drop_last());
        assert((a + b).last() == b.last());
    }
}

/// The size of a book is known where it has tracks and the size of each is known,
/// and is then that of all of them.
pub proof fn law_book_bytes(sizes: Seq<Option<u64>>)
    ensures
        book_bytes(sizes) is Some <==> sizes.len() > 0 && forall|i: int|
            0 <= i < sizes.len() ==> (#[trigger] sizes[i]) is Some,
        book_bytes(sizes) matches Some(bytes) ==> bytes == sum_sizes(sizes),
{
}

/// What fits exactly is not too much; less free space or more to fetch never makes
/// it fit.
pub proof fn law_exceeds(bytes: u64, more: u64, free: u64, less: u64)
    requires
        bytes <= more,
        less <= free,
    ensures
        !exceeds(Some(bytes), Some(bytes)),
        exceeds(Some(bytes), Some(free)) ==> exceeds(Some(more), Some(less)),
        bytes < more ==> exceeds(Some(more), Some(bytes)),
        !exceeds(None, Some(free)) && !exceeds(Some(bytes), None),
{
}

/// The estimate is written as a number of bytes, after a sign that says that it is
/// one.
pub proof fn law_estimate_text(bytes: u64, free_space: Option<u64>)
    ensures
        estimate_text(None, free_space) is None,
        free_space is None || free_space->0 >= bytes ==> (estimate_text(Some(bytes), free_space) matches Some(text)
            && text.len() > 0 && text[0] == '≈' && text.skip(1) == bytes_text(bytes as nat)),
        free_space is Some && free_space->0 < bytes ==> estimate_text(Some(bytes), free_space) == Some(
            "Not enough free space"@,
        ),
{
    reveal_strlit("≈");
    let text = "≈"@ + bytes_text(bytes as nat);
    assert(text.skip(1) =~= bytes_text(bytes as nat));
}

/// The chapters up to the current one and those after it are all there are; the
/// stepper goes up to those after it, and to one where there are none.
pub proof fn law_chapters_after(chapter_count: usize, current: usize)
    ensures
        current < chapter_count ==> chapters_after(chapter_count, current) + current + 1 == chapter_count,
        current >= chapter_count ==> chapters_after(chapter_count, current) == 0,
        chapters_after(chapter_count, current) > 0 ==> ceiling(chapter_count, current) == chapters_after(
            chapter_count,
            current,
        ),
        chapters_after(chapter_count, current) == 0 ==> ceiling(chapter_count, current) == 1,
{
}

/// The scopes of the sheet are the current chapter, as many as the stepper stands
/// at, those that remain, and the book, each with its own estimate; all can be
/// chosen but that of the next chapters where there are none.
pub proof fn law_scopes(sheet: DownloadSheet, i: int)
    requires
        0 <= i < 4,
    ensures
        ({
            let rows = scope_rows(sheet);
            let (scope, estimate) = if i == 0 {
                (DownloadScope::CurrentChapter, sheet.current_estimate)
            } else if i == 1 {
                (DownloadScope::NextChapters(sheet.next_count), sheet.next_estimate)
            } else if i == 2 {
                (DownloadScope::RemainingChapters, sheet.remaining_estimate)
            } else {
                (DownloadScope::EntireBook, sheet.book_estimate)
            };
            &&& rows.len() == 4
            &&& rows[i].action == SheetAction::Download(scope)
            &&& rows[i].subtitle == estimate_text(estimate, sheet.free_space)
            &&& rows[i].blocked <==> (estimate is Some && sheet.free_space is Some && estimate->0 > sheet.free_space->0)
            &&& rows[i].sensitive <==> i != 1 || sheet.current + 1 < sheet.chapter_count
        }),
{
}

/// The stepper goes by one chapter at a time, as far as there is one.
pub proof fn law_one_at_a_time(count: int, most: int)
    requires
        1 <= count <= most,
    ensures
        one_more(count, most) - count == if count == most {
            0int
        } else {
            1
        },
        count - one_less(count) == if count == 1 {
            0int
        } else {
            1
        },
{
}

} // verus!
